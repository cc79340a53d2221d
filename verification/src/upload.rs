//! The upload policy: sessions, what peers have given and taken, and the
//! rounds in which slots are handed out anew. Times are in nanoseconds.

use crate::address::PeerKey;
use crate::choke::{TorrentState, TransferPolicy};
use crate::error::TorrentId;
use crate::num::{max_of, min_of, saturating_mul_u64};
use crate::peer_id::random_number;
use vstd::prelude::*;

verus! {

pub const NANOS_PER_SECOND: u64 = 1_000_000_000;

/// How many seconds lie between two rounds.
pub const UPLOAD_CHOKE_SECONDS: u64 = 10;

/// How long a peer that went away is remembered.
pub const REPUTATION_RETENTION_NANOS: u64 = 3_600_000_000_000;

/// Token bucket for the global upload ceiling; negative balances translate
/// into a delay before the next block is sent.
#[derive(Clone, Copy, Debug)]
pub struct UploadLimiter {
    pub last_refill: Option<u64>,
    pub tokens: i128,
}

impl Default for UploadLimiter {
    fn default() -> (limiter: Self)
        ensures
            limiter == (UploadLimiter { last_refill: None, tokens: 0 }),
    {
        Self { last_refill: None, tokens: 0 }
    }
}

/// The balance once the time since the last charge has been credited: never
/// more than a second's worth.
pub open spec fn refilled(limiter: UploadLimiter, rate: int, now: int) -> int {
    match limiter.last_refill {
        None => rate,
        Some(last) => min_of(
            min_of(
                limiter.tokens + min_of(rate * max_of(now - last, 0), i128::MAX as int)
                    / 1_000_000_000,
                i128::MAX as int,
            ),
            rate,
        ),
    }
}

/// The limiter after a charge.
pub open spec fn charged(limiter: UploadLimiter, rate: int, bytes: int, now: int) -> UploadLimiter {
    if rate == 0 {
        limiter
    } else {
        UploadLimiter {
            last_refill: Some(now as u64),
            tokens: max_of(refilled(limiter, rate, now) - bytes, i128::MIN as int) as i128,
        }
    }
}

/// How long a balance has to wait until it is even again.
pub open spec fn delay_for(tokens: int, rate: int) -> int {
    if rate == 0 || tokens >= 0 {
        0
    } else {
        min_of(min_of(-tokens * 1_000_000_000, u128::MAX as int) / rate, u64::MAX as int)
    }
}

impl UploadLimiter {
    /// Charges `bytes` against the bucket and returns how many nanoseconds the
    /// caller must wait before sending them.
    pub fn charge(&mut self, rate_bytes_per_second: u64, bytes: u64, now: u64) -> (wait: u64)
        ensures
            *final(self) == charged(
                *old(self),
                rate_bytes_per_second as int,
                bytes as int,
                now as int,
            ),
            wait == delay_for(final(self).tokens as int, rate_bytes_per_second as int),
    {
        if rate_bytes_per_second == 0 {
            return 0;
        }
        let rate: i128 = rate_bytes_per_second as i128;
        let balance: i128 = match self.last_refill {
            Some(last) => {
                let elapsed: i128 = now.saturating_sub(last) as i128;
                proof {
                    assert(0 <= rate * elapsed) by (nonlinear_arith)
                        requires
                            rate >= 0,
                            elapsed >= 0,
                    ;
                }
                let earned: i128 = match rate.checked_mul(elapsed) {
                    Some(earned) => earned,
                    None => i128::MAX,
                };
                let refill: i128 = earned / 1_000_000_000;
                let sum: i128 = match self.tokens.checked_add(refill) {
                    Some(sum) => sum,
                    None => i128::MAX,
                };
                if sum <= rate {
                    sum
                } else {
                    rate
                }
            },
            None => rate,
        };
        self.last_refill = Some(now);
        self.tokens = match balance.checked_sub(bytes as i128) {
            Some(rest) => rest,
            None => i128::MIN,
        };
        if self.tokens >= 0 {
            return 0;
        }
        let deficit: u128 = if self.tokens == i128::MIN {
            0x8000_0000_0000_0000_0000_0000_0000_0000
        } else {
            (-self.tokens) as u128
        };
        let scaled: u128 = match deficit.checked_mul(1_000_000_000) {
            Some(scaled) => scaled,
            None => u128::MAX,
        };
        let nanos: u128 = scaled / rate_bytes_per_second as u128;
        if nanos <= u64::MAX as u128 {
            nanos as u64
        } else {
            u64::MAX
        }
    }
}

/// Whoever waits as long as a charge says finds the balance even again: the
/// time waited earns what was owed, but for what rounding to whole nanoseconds
/// and whole tokens takes away.
pub proof fn law_waiting_settles_the_debt(tokens: int, rate: int)
    requires
        rate > 0,
        -tokens * 1_000_000_000 <= u128::MAX,
        delay_for(tokens, rate) < u64::MAX,
    ensures
        tokens < 0 ==> tokens + rate * delay_for(tokens, rate) / 1_000_000_000 >= -1 - rate
            / 1_000_000_000,
        tokens >= 0 ==> delay_for(tokens, rate) == 0,
{
    if tokens < 0 {
        let owed = -tokens * 1_000_000_000;
        let wait = owed / rate;
        vstd::arithmetic::div_mod::lemma_fundamental_div_mod(owed, rate);
        vstd::arithmetic::div_mod::lemma_mod_bound(owed, rate);
        let earned = rate * wait;
        assert(earned > owed - rate);
        let whole = rate / 1_000_000_000;
        let rest = rate % 1_000_000_000;
        assert(rate == 1_000_000_000 * whole + rest);
        assert(earned > 1_000_000_000 * (-tokens - whole - 1));
        assert(earned / 1_000_000_000 >= -tokens - whole - 1);
    }
}

/// One connection that uploads.
#[derive(Clone, Copy, Debug)]
pub struct UploadSession {
    pub session: u64,
    pub torrent_id: TorrentId,
    pub peer: PeerKey,
    pub reciprocal: bool,
    pub interested: bool,
    /// The peer holds pieces we still need, so upload to it can be repaid.
    pub interesting: bool,
    pub unchoked: bool,
    pub uploaded: u64,
    pub sampled_uploaded: u64,
    pub recent_upload: u64,
}

/// What a peer has given and taken.
#[derive(Clone, Copy, Debug, Eq, PartialEq, Structural)]
pub struct PeerReputation {
    pub verified_from: u64,
    pub uploaded_to: u64,
    pub failures: u32,
    /// Verified bytes since the last choke round, folded into `verified_rate`.
    pub recent_verified: u64,
    /// Bytes per second delivered by this peer over the last choke round.
    pub verified_rate: u64,
    pub first_seen: u64,
    pub last_seen: u64,
}

/// The reputation of someone who has just been seen for the first time.
pub open spec fn fresh(now: u64) -> PeerReputation {
    PeerReputation {
        verified_from: 0,
        uploaded_to: 0,
        failures: 0,
        recent_verified: 0,
        verified_rate: 0,
        first_seen: now,
        last_seen: now,
    }
}

impl PeerReputation {
    pub fn new(now: u64) -> (reputation: Self)
        ensures
            reputation == fresh(now),
    {
        Self {
            verified_from: 0,
            uploaded_to: 0,
            failures: 0,
            recent_verified: 0,
            verified_rate: 0,
            first_seen: now,
            last_seen: now,
        }
    }
}

/// The reputation of one peer in one torrent.
#[derive(Clone, Copy, Debug)]
pub struct ReputationEntry {
    pub torrent_id: TorrentId,
    pub peer: PeerKey,
    pub reputation: PeerReputation,
}

/// What a peer has earned by delivering, at the ratio that is configured.
#[derive(Clone, Copy, Debug, Eq, PartialEq, Structural)]
pub enum Credit {
    /// No ratio is configured: upload is not capped.
    Unlimited,
    Earned(u64),
}

/// What a peer has given beyond what it took, less a mebibyte for each failure.
pub open spec fn contribution_of(reputation: PeerReputation) -> int {
    max_of(
        max_of(reputation.verified_from - reputation.uploaded_to, 0) - reputation.failures
            * 1048576,
        0,
    )
}

pub fn reciprocal_contribution(reputation: PeerReputation) -> (score: u64)
    ensures
        score == contribution_of(reputation),
{
    reputation.verified_from.saturating_sub(reputation.uploaded_to).saturating_sub(
        reputation.failures as u64 * 1048576,
    )
}

/// Whether a peer that trades may be uploaded to: it took less than what it
/// earned and the allowance for each hour since it was first seen.
pub open spec fn has_credit(
    transfer: TransferPolicy,
    reputation: PeerReputation,
    now: int,
    credit: Credit,
) -> bool {
    match credit {
        Credit::Unlimited => true,
        Credit::Earned(earned) => {
            let hours = max_of(now - reputation.first_seen, 0) / 1_000_000_000 / 3600 + 1;
            let bootstrap = min_of(transfer.reciprocal_bootstrap_bytes * hours, u64::MAX as int);
            reputation.uploaded_to < min_of(bootstrap + earned, u64::MAX as int)
        },
    }
}

/// Upload allowance while downloading: a per-hour bootstrap so a new peer can
/// start reciprocating, plus what it has earned by delivering verified bytes.
pub fn has_reciprocal_upload_credit(
    transfer: &TransferPolicy,
    reputation: PeerReputation,
    now: u64,
    credit: Credit,
) -> (result: bool)
    ensures
        result == has_credit(*transfer, reputation, now as int, credit),
{
    match credit {
        Credit::Unlimited => true,
        Credit::Earned(earned) => {
            let hours: u64 = now.saturating_sub(reputation.first_seen) / NANOS_PER_SECOND / 3600 + 1;
            let bootstrap: u64 = saturating_mul_u64(transfer.reciprocal_bootstrap_bytes, hours);
            reputation.uploaded_to < bootstrap.saturating_add(earned)
        },
    }
}

/// The position of a session at or after `from`, or the length.
pub open spec fn session_at(sessions: Seq<UploadSession>, session: u64, from: int) -> int
    decreases sessions.len() - from,
{
    if from < 0 || from >= sessions.len() || sessions[from].session == session {
        from
    } else {
        session_at(sessions, session, from + 1)
    }
}

/// Whether an entry belongs to a peer in a torrent.
pub open spec fn belongs(entry: ReputationEntry, torrent: TorrentId, peer: PeerKey) -> bool {
    entry.torrent_id == torrent && entry.peer == peer
}

/// The position of a peer's entry at or after `from`, or the length.
pub open spec fn entry_at(
    entries: Seq<ReputationEntry>,
    torrent: TorrentId,
    peer: PeerKey,
    from: int,
) -> int
    decreases entries.len() - from,
{
    if from < 0 || from >= entries.len() || belongs(entries[from], torrent, peer) {
        from
    } else {
        entry_at(entries, torrent, peer, from + 1)
    }
}

/// The reputation of a peer; someone unknown has a fresh one.
pub open spec fn reputation_of(
    entries: Seq<ReputationEntry>,
    torrent: TorrentId,
    peer: PeerKey,
    now: u64,
) -> PeerReputation {
    let at = entry_at(entries, torrent, peer, 0);
    if at < entries.len() {
        entries[at].reputation
    } else {
        fresh(now)
    }
}

/// The entries with the reputation of one peer replaced.
pub open spec fn with_reputation(
    entries: Seq<ReputationEntry>,
    torrent: TorrentId,
    peer: PeerKey,
    reputation: PeerReputation,
) -> Seq<ReputationEntry> {
    let at = entry_at(entries, torrent, peer, 0);
    let entry = ReputationEntry { torrent_id: torrent, peer, reputation };
    if at < entries.len() {
        entries.update(at, entry)
    } else {
        entries.push(entry)
    }
}

/// How many of the first `n` sessions of a torrent hold a slot.
pub open spec fn occupied_below(
    sessions: Seq<UploadSession>,
    torrent: TorrentId,
    n: int,
) -> int
    decreases n,
{
    if n <= 0 {
        0
    } else {
        let last = sessions[n - 1];
        occupied_below(sessions, torrent, n - 1) + if last.torrent_id == torrent
            && last.interested && last.unchoked {
            1int
        } else {
            0int
        }
    }
}

/// The sessions, the reputations, the round and the limiter.
#[derive(Debug)]
pub struct UploadPolicy {
    pub sessions: Vec<UploadSession>,
    pub reputation: Vec<ReputationEntry>,
    pub round: u64,
    pub limiter: UploadLimiter,
}

/// What the store says of a torrent when a round begins.
#[derive(Clone, Copy, Debug, Eq, PartialEq, Structural)]
pub struct TorrentStanding {
    pub id: TorrentId,
    pub state: TorrentState,
    /// The torrent has uploaded as much as its ratio allows.
    pub capped: bool,
}

/// A session that has to be told that it was choked or unchoked.
#[derive(Clone, Copy, Debug, Eq, PartialEq, Structural)]
pub struct ChokeAction {
    pub session: u64,
    pub unchoked: bool,
}

/// Whether no peer has two entries for a torrent.
pub open spec fn unique_peers(entries: Seq<ReputationEntry>) -> bool {
    forall|i: int, j: int|
        0 <= i < j < entries.len() ==> !belongs(
            #[trigger] entries[i],
            (#[trigger] entries[j]).torrent_id,
            entries[j].peer,
        )
}

pub proof fn lemma_entry_at(
    entries: Seq<ReputationEntry>,
    torrent: TorrentId,
    peer: PeerKey,
    from: int,
)
    requires
        0 <= from <= entries.len(),
    ensures
        ({
            let at = entry_at(entries, torrent, peer, from);
            &&& from <= at <= entries.len()
            &&& at < entries.len() ==> belongs(entries[at], torrent, peer)
            &&& forall|k: int|
                from <= k < at ==> !belongs(#[trigger] entries[k], torrent, peer)
        }),
    decreases entries.len() - from,
{
    if from < entries.len() && !belongs(entries[from], torrent, peer) {
        lemma_entry_at(entries, torrent, peer, from + 1);
    }
}

proof fn lemma_with_reputation_unique(
    entries: Seq<ReputationEntry>,
    torrent: TorrentId,
    peer: PeerKey,
    reputation: PeerReputation,
)
    requires
        unique_peers(entries),
    ensures
        unique_peers(with_reputation(entries, torrent, peer, reputation)),
{
    lemma_entry_at(entries, torrent, peer, 0);
}

/// Whether no session stands twice.
pub open spec fn unique_sessions(sessions: Seq<UploadSession>) -> bool {
    forall|i: int, j: int|
        0 <= i < j < sessions.len() ==> (#[trigger] sessions[i]).session != (
        #[trigger] sessions[j]).session
}

/// Whether a session may hold a slot: without trading always; with trading,
/// where the peer has something to give and has given something.
pub open spec fn contributes(session: UploadSession, reputation: PeerReputation) -> bool {
    !session.reciprocal || (session.interesting && (contribution_of(reputation) > 0
        || reputation.verified_rate > 0))
}

/// Whether a session whose interest changed is unchoked from then on.
pub open spec fn unchoked_on_interest(
    sessions: Seq<UploadSession>,
    reputation: PeerReputation,
    transfer: TransferPolicy,
    at: int,
    interested: bool,
    now: int,
    credit: Credit,
) -> bool {
    let entry = sessions[at];
    let limit = if contributes(entry, reputation) {
        min_of(
            transfer.upload_slots + transfer.optimistic_upload_slots,
            usize::MAX as int,
        )
    } else {
        transfer.optimistic_upload_slots as int
    };
    &&& interested
    &&& !entry.reciprocal || has_credit(transfer, reputation, now, credit)
    &&& entry.unchoked || occupied_below(sessions, entry.torrent_id, sessions.len() as int)
        < limit
}

/// The sessions after the interest of one changed, and whether it is unchoked.
pub open spec fn interest_changed(
    sessions: Seq<UploadSession>,
    entries: Seq<ReputationEntry>,
    transfer: TransferPolicy,
    session: u64,
    interested: bool,
    now: u64,
    credit: Credit,
) -> (Seq<UploadSession>, bool) {
    let at = session_at(sessions, session, 0);
    if at < sessions.len() {
        let entry = sessions[at];
        let reputation = reputation_of(entries, entry.torrent_id, entry.peer, now);
        let unchoked = unchoked_on_interest(
            sessions,
            reputation,
            transfer,
            at,
            interested,
            now as int,
            credit,
        );
        (sessions.update(at, UploadSession { interested, unchoked, ..entry }), unchoked)
    } else {
        (sessions, false)
    }
}

/// The sessions after one asked for a block, and whether it may have it. One
/// that may not loses its slot.
pub open spec fn block_asked(
    sessions: Seq<UploadSession>,
    entries: Seq<ReputationEntry>,
    transfer: TransferPolicy,
    session: u64,
    now: u64,
    credit: Credit,
) -> (Seq<UploadSession>, bool) {
    let at = session_at(sessions, session, 0);
    if at < sessions.len() {
        let entry = sessions[at];
        let reputation = reputation_of(entries, entry.torrent_id, entry.peer, now);
        let allowed = entry.unchoked && (!entry.reciprocal || has_credit(
            transfer,
            reputation,
            now as int,
            credit,
        ));
        (sessions.update(at, UploadSession { unchoked: allowed, ..entry }), allowed)
    } else {
        (sessions, false)
    }
}

impl UploadPolicy {
    pub open spec fn wf(&self) -> bool {
        unique_sessions(self.sessions@) && unique_peers(self.reputation@)
    }

    pub fn new() -> (policy: Self)
        ensures
            policy.wf(),
            policy.sessions@.len() == 0,
            policy.reputation@.len() == 0,
            policy.round == 0,
            policy.limiter == (UploadLimiter { last_refill: None, tokens: 0 }),
    {
        Self {
            sessions: Vec::new(),
            reputation: Vec::new(),
            round: 0,
            limiter: UploadLimiter { last_refill: None, tokens: 0 },
        }
    }

    fn find_session(&self, session: u64) -> (result: Option<usize>)
        ensures
            match result {
                Some(at) => at < self.sessions@.len() && at == session_at(
                    self.sessions@,
                    session,
                    0,
                ) && self.sessions@[at as int].session == session,
                None => session_at(self.sessions@, session, 0) == self.sessions@.len() && forall|
                    k: int,
                |
                    0 <= k < self.sessions@.len() ==> (#[trigger] self.sessions@[k]).session
                        != session,
            },
    {
        let mut i: usize = 0;
        while i < self.sessions.len()
            invariant
                i <= self.sessions@.len(),
                session_at(self.sessions@, session, 0) == session_at(
                    self.sessions@,
                    session,
                    i as int,
                ),
                forall|k: int| 0 <= k < i ==> (#[trigger] self.sessions@[k]).session != session,
            decreases self.sessions@.len() - i,
        {
            if self.sessions[i].session == session {
                return Some(i);
            }
            i += 1;
        }
        None
    }

    pub(crate) fn find_entry(&self, torrent: TorrentId, peer: &PeerKey) -> (result: Option<usize>)
        ensures
            match result {
                Some(at) => at < self.reputation@.len() && at == entry_at(
                    self.reputation@,
                    torrent,
                    *peer,
                    0,
                ),
                None => entry_at(self.reputation@, torrent, *peer, 0) == self.reputation@.len(),
            },
    {
        let mut i: usize = 0;
        while i < self.reputation.len()
            invariant
                i <= self.reputation@.len(),
                entry_at(self.reputation@, torrent, *peer, 0) == entry_at(
                    self.reputation@,
                    torrent,
                    *peer,
                    i as int,
                ),
            decreases self.reputation@.len() - i,
        {
            if self.reputation[i].torrent_id == torrent && self.reputation[i].peer.same(peer) {
                return Some(i);
            }
            i += 1;
        }
        None
    }

    /// The reputation of a peer; someone unknown has a fresh one.
    pub fn reputation(&self, torrent: TorrentId, peer: &PeerKey, now: u64) -> (result:
        PeerReputation)
        ensures
            result == reputation_of(self.reputation@, torrent, *peer, now),
    {
        match self.find_entry(torrent, peer) {
            Some(at) => self.reputation[at].reputation,
            None => PeerReputation::new(now),
        }
    }

    fn put_reputation(&mut self, torrent: TorrentId, peer: PeerKey, reputation: PeerReputation)
        requires
            old(self).wf(),
        ensures
            final(self).wf(),
            final(self).reputation@ == with_reputation(
                old(self).reputation@,
                torrent,
                peer,
                reputation,
            ),
            final(self).sessions == old(self).sessions,
            final(self).round == old(self).round,
            final(self).limiter == old(self).limiter,
    {
        proof {
            lemma_with_reputation_unique(self.reputation@, torrent, peer, reputation);
        }
        let entry = ReputationEntry { torrent_id: torrent, peer, reputation };
        match self.find_entry(torrent, &peer) {
            Some(at) => {
                self.reputation[at] = entry;
            },
            None => {
                self.reputation.push(entry);
            },
        }
    }

    /// Opens a session under a number that is not in use, or takes the place
    /// of the session that has it.
    pub fn open_session(
        &mut self,
        session: u64,
        torrent_id: TorrentId,
        peer: PeerKey,
        reciprocal: bool,
    )
        requires
            old(self).wf(),
        ensures
            final(self).wf(),
            ({
                let opened = UploadSession {
                    session,
                    torrent_id,
                    peer,
                    reciprocal,
                    interested: false,
                    interesting: false,
                    unchoked: false,
                    uploaded: 0,
                    sampled_uploaded: 0,
                    recent_upload: 0,
                };
                let at = session_at(old(self).sessions@, session, 0);
                final(self).sessions@ == if at < old(self).sessions@.len() {
                    old(self).sessions@.update(at, opened)
                } else {
                    old(self).sessions@.push(opened)
                }
            }),
            final(self).reputation == old(self).reputation,
            final(self).round == old(self).round,
            final(self).limiter == old(self).limiter,
    {
        let opened = UploadSession {
            session,
            torrent_id,
            peer,
            reciprocal,
            interested: false,
            interesting: false,
            unchoked: false,
            uploaded: 0,
            sampled_uploaded: 0,
            recent_upload: 0,
        };
        match self.find_session(session) {
            Some(at) => {
                self.sessions[at] = opened;
            },
            None => {
                self.sessions.push(opened);
            },
        }
    }

    /// Opens a session under a random number, which is returned.
    pub fn register_upload_session(
        &mut self,
        torrent_id: TorrentId,
        peer: PeerKey,
        reciprocal: bool,
    ) -> (session: u64)
        requires
            old(self).wf(),
        ensures
            final(self).wf(),
            ({
                let opened = UploadSession {
                    session,
                    torrent_id,
                    peer,
                    reciprocal,
                    interested: false,
                    interesting: false,
                    unchoked: false,
                    uploaded: 0,
                    sampled_uploaded: 0,
                    recent_upload: 0,
                };
                let at = session_at(old(self).sessions@, session, 0);
                final(self).sessions@ == if at < old(self).sessions@.len() {
                    old(self).sessions@.update(at, opened)
                } else {
                    old(self).sessions@.push(opened)
                }
            }),
            final(self).reputation == old(self).reputation,
            final(self).round == old(self).round,
            final(self).limiter == old(self).limiter,
    {
        let session: u64 = random_number();
        self.open_session(session, torrent_id, peer, reciprocal);
        session
    }

    /// Closes a session.
    pub fn close_session(&mut self, session: u64)
        requires
            old(self).wf(),
        ensures
            final(self).wf(),
            ({
                let at = session_at(old(self).sessions@, session, 0);
                final(self).sessions@ == if at < old(self).sessions@.len() {
                    old(self).sessions@.remove(at)
                } else {
                    old(self).sessions@
                }
            }),
            forall|k: int|
                0 <= k < final(self).sessions@.len() ==> (
                #[trigger] final(self).sessions@[k]).session != session,
            final(self).reputation == old(self).reputation,
            final(self).round == old(self).round,
            final(self).limiter == old(self).limiter,
    {
        let ghost before = self.sessions@;
        if let Some(at) = self.find_session(session) {
            self.sessions.remove(at);
            proof {
                let after = self.sessions@;
                assert forall|i: int, j: int| 0 <= i < j < after.len() implies (
                #[trigger] after[i]).session != (#[trigger] after[j]).session by {
                    let from_i = if i < at { i } else { i + 1 };
                    let from_j = if j < at { j } else { j + 1 };
                    assert(after[i] == before[from_i]);
                    assert(after[j] == before[from_j]);
                }
                assert forall|k: int| 0 <= k < after.len() implies (
                #[trigger] after[k]).session != session by {
                    let from = if k < at { k } else { k + 1 };
                    assert(after[k] == before[from]);
                    assert(before[at as int].session == session);
                }
            }
        }
    }

    /// What a peer has delivered in the torrent of a session, for the ratio to
    /// be applied to.
    pub fn session_verified(&self, session: u64, now: u64) -> (verified: u64)
        ensures
            ({
                let at = session_at(self.sessions@, session, 0);
                verified == if at < self.sessions@.len() {
                    reputation_of(
                        self.reputation@,
                        self.sessions@[at].torrent_id,
                        self.sessions@[at].peer,
                        now,
                    ).verified_from
                } else {
                    0
                }
            }),
    {
        match self.find_session(session) {
            Some(at) => {
                let entry = self.sessions[at];
                self.reputation(entry.torrent_id, &entry.peer, now).verified_from
            },
            None => 0,
        }
    }

    /// A peer became interested or lost interest. Says whether it is unchoked.
    pub fn set_upload_interest(
        &mut self,
        transfer: &TransferPolicy,
        session: u64,
        interested: bool,
        now: u64,
        credit: Credit,
    ) -> (unchoked: bool)
        requires
            old(self).wf(),
        ensures
            final(self).wf(),
            (final(self).sessions@, unchoked) == interest_changed(
                old(self).sessions@,
                old(self).reputation@,
                *transfer,
                session,
                interested,
                now,
                credit,
            ),
            final(self).reputation == old(self).reputation,
            final(self).round == old(self).round,
            final(self).limiter == old(self).limiter,
    {
        let at: usize = match self.find_session(session) {
            Some(at) => at,
            None => {
                return false;
            },
        };
        let entry = self.sessions[at];
        let reputation = self.reputation(entry.torrent_id, &entry.peer, now);
        let has_credit: bool = !entry.reciprocal || has_reciprocal_upload_credit(
            transfer,
            reputation,
            now,
            credit,
        );
        let contributes: bool = !entry.reciprocal || (entry.interesting && (
        reciprocal_contribution(reputation) > 0 || reputation.verified_rate > 0));
        let occupied: usize = self.occupied(entry.torrent_id);
        let limit: usize = if contributes {
            transfer.upload_slots.saturating_add(transfer.optimistic_upload_slots)
        } else {
            transfer.optimistic_upload_slots
        };
        let unchoked: bool = interested && has_credit && (entry.unchoked || occupied < limit);
        self.sessions[at] = UploadSession { interested, unchoked, ..entry };
        unchoked
    }

    fn occupied(&self, torrent: TorrentId) -> (total: usize)
        ensures
            total == occupied_below(self.sessions@, torrent, self.sessions@.len() as int),
    {
        let mut total: usize = 0;
        let mut i: usize = 0;
        while i < self.sessions.len()
            invariant
                i <= self.sessions@.len(),
                total <= i,
                total == occupied_below(self.sessions@, torrent, i as int),
            decreases self.sessions@.len() - i,
        {
            let entry = &self.sessions[i];
            if entry.torrent_id == torrent && entry.interested && entry.unchoked {
                total += 1;
            }
            i += 1;
        }
        total
    }

    /// Records whether a peer holds pieces we still need. Regular upload slots
    /// while downloading go only to such peers, because upload to anyone else
    /// cannot be repaid in kind.
    pub fn set_session_interesting(
        &mut self,
        torrent_id: TorrentId,
        peer: &PeerKey,
        interesting: bool,
    )
        requires
            old(self).wf(),
        ensures
            final(self).wf(),
            final(self).sessions@ == Seq::new(
                old(self).sessions@.len(),
                |i: int|
                    if old(self).sessions@[i].torrent_id == torrent_id && old(
                        self,
                    ).sessions@[i].peer == *peer {
                        UploadSession { interesting, ..old(self).sessions@[i] }
                    } else {
                        old(self).sessions@[i]
                    },
            ),
            final(self).reputation == old(self).reputation,
            final(self).round == old(self).round,
            final(self).limiter == old(self).limiter,
    {
        let ghost before = self.sessions@;
        let ghost wanted = Seq::new(
            before.len(),
            |i: int|
                if before[i].torrent_id == torrent_id && before[i].peer == *peer {
                    UploadSession { interesting, ..before[i] }
                } else {
                    before[i]
                },
        );
        let mut i: usize = 0;
        while i < self.sessions.len()
            invariant
                before == old(self).sessions@,
                wanted == Seq::new(
                    before.len(),
                    |i: int|
                        if before[i].torrent_id == torrent_id && before[i].peer == *peer {
                            UploadSession { interesting, ..before[i] }
                        } else {
                            before[i]
                        },
                ),
                self.sessions@.len() == before.len(),
                i <= before.len(),
                forall|k: int| 0 <= k < i ==> self.sessions@[k] == wanted[k],
                forall|k: int| i <= k < before.len() ==> self.sessions@[k] == before[k],
                self.reputation == old(self).reputation,
                self.round == old(self).round,
                self.limiter == old(self).limiter,
            decreases self.sessions@.len() - i,
        {
            let entry = self.sessions[i];
            if entry.torrent_id == torrent_id && entry.peer.same(peer) {
                self.sessions[i] = UploadSession { interesting, ..entry };
            }
            i += 1;
        }
        proof {
            assert(self.sessions@ =~= wanted);
            assert forall|i: int, j: int| 0 <= i < j < wanted.len() implies (
            #[trigger] wanted[i]).session != (#[trigger] wanted[j]).session by {
                assert(wanted[i].session == before[i].session);
                assert(wanted[j].session == before[j].session);
            }
        }
    }

    /// Whether a session may be sent another block. One that may not loses its slot.
    pub fn upload_allowed(
        &mut self,
        transfer: &TransferPolicy,
        session: u64,
        now: u64,
        credit: Credit,
    ) -> (allowed: bool)
        requires
            old(self).wf(),
        ensures
            final(self).wf(),
            (final(self).sessions@, allowed) == block_asked(
                old(self).sessions@,
                old(self).reputation@,
                *transfer,
                session,
                now,
                credit,
            ),
            final(self).reputation == old(self).reputation,
            final(self).round == old(self).round,
            final(self).limiter == old(self).limiter,
    {
        let at: usize = match self.find_session(session) {
            Some(at) => at,
            None => {
                return false;
            },
        };
        let entry = self.sessions[at];
        let reputation = self.reputation(entry.torrent_id, &entry.peer, now);
        let allowed: bool = entry.unchoked && (!entry.reciprocal || has_reciprocal_upload_credit(
            transfer,
            reputation,
            now,
            credit,
        ));
        if !allowed {
            self.sessions[at] = UploadSession { unchoked: false, ..entry };
        }
        assert(self.sessions@ =~= old(self).sessions@.update(
            at as int,
            UploadSession { unchoked: allowed, ..entry },
        ));
        allowed
    }

    /// A peer delivered bytes that passed verification.
    pub fn record_verified_download(
        &mut self,
        torrent_id: TorrentId,
        peer: PeerKey,
        bytes: u64,
        now: u64,
    )
        requires
            old(self).wf(),
        ensures
            final(self).wf(),
            ({
                let before = reputation_of(old(self).reputation@, torrent_id, peer, now);
                final(self).reputation@ == with_reputation(
                    old(self).reputation@,
                    torrent_id,
                    peer,
                    PeerReputation {
                        verified_from: min_of(
                            before.verified_from + bytes,
                            u64::MAX as int,
                        ) as u64,
                        recent_verified: min_of(
                            before.recent_verified + bytes,
                            u64::MAX as int,
                        ) as u64,
                        last_seen: now,
                        ..before
                    },
                )
            }),
            final(self).sessions == old(self).sessions,
            final(self).round == old(self).round,
            final(self).limiter == old(self).limiter,
    {
        let before = self.reputation(torrent_id, &peer, now);
        self.put_reputation(
            torrent_id,
            peer,
            PeerReputation {
                verified_from: before.verified_from.saturating_add(bytes),
                recent_verified: before.recent_verified.saturating_add(bytes),
                last_seen: now,
                ..before
            },
        );
    }

    /// A peer delivered a piece that failed verification.
    pub fn record_peer_failure(&mut self, torrent_id: TorrentId, peer: PeerKey, now: u64)
        requires
            old(self).wf(),
        ensures
            final(self).wf(),
            ({
                let before = reputation_of(old(self).reputation@, torrent_id, peer, now);
                final(self).reputation@ == with_reputation(
                    old(self).reputation@,
                    torrent_id,
                    peer,
                    PeerReputation {
                        failures: min_of(before.failures + 1, u32::MAX as int) as u32,
                        last_seen: now,
                        ..before
                    },
                )
            }),
            final(self).sessions == old(self).sessions,
            final(self).round == old(self).round,
            final(self).limiter == old(self).limiter,
    {
        let before = self.reputation(torrent_id, &peer, now);
        self.put_reputation(
            torrent_id,
            peer,
            PeerReputation { failures: before.failures.saturating_add(1), last_seen: now, ..before },
        );
    }

    /// Bytes were uploaded to a peer in a session.
    pub fn record_peer_upload(
        &mut self,
        torrent_id: TorrentId,
        session: u64,
        peer: PeerKey,
        bytes: u64,
        now: u64,
    )
        requires
            old(self).wf(),
        ensures
            final(self).wf(),
            ({
                let sessions = old(self).sessions@;
                let at = session_at(sessions, session, 0);
                let before = reputation_of(old(self).reputation@, torrent_id, peer, now);
                &&& final(self).sessions@ == if at < sessions.len() {
                    sessions.update(
                        at,
                        UploadSession {
                            uploaded: min_of(
                                sessions[at].uploaded + bytes,
                                u64::MAX as int,
                            ) as u64,
                            ..sessions[at]
                        },
                    )
                } else {
                    sessions
                }
                &&& final(self).reputation@ == with_reputation(
                    old(self).reputation@,
                    torrent_id,
                    peer,
                    PeerReputation {
                        uploaded_to: min_of(before.uploaded_to + bytes, u64::MAX as int) as u64,
                        last_seen: now,
                        ..before
                    },
                )
            }),
            final(self).round == old(self).round,
            final(self).limiter == old(self).limiter,
    {
        if let Some(at) = self.find_session(session) {
            let entry = self.sessions[at];
            self.sessions[at] = UploadSession {
                uploaded: entry.uploaded.saturating_add(bytes),
                ..entry
            };
        }
        let before = self.reputation(torrent_id, &peer, now);
        self.put_reputation(
            torrent_id,
            peer,
            PeerReputation {
                uploaded_to: before.uploaded_to.saturating_add(bytes),
                last_seen: now,
                ..before
            },
        );
    }
}

} // verus!
