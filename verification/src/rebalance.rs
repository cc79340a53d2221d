//! One round of handing out upload slots.

use crate::choke::{
    distinct_candidates, lemma_marked_sessions, select_upload_sessions, selected,
    selected_sessions, trades, TorrentState, TransferPolicy, UploadCandidate,
};
use crate::error::TorrentId;
use crate::num::max_of;
use crate::upload::{
    contribution_of, has_credit, has_reciprocal_upload_credit, reciprocal_contribution,
    belongs, reputation_of, unique_peers, unique_sessions, ChokeAction, Credit, PeerReputation, ReputationEntry,
    TorrentStanding, UploadPolicy, UploadSession, REPUTATION_RETENTION_NANOS,
    UPLOAD_CHOKE_SECONDS,
};
use vstd::prelude::*;

verus! {

/// The last standing that is listed for a torrent among the first `n`.
pub open spec fn standing_below(
    torrents: Seq<TorrentStanding>,
    id: TorrentId,
    n: int,
) -> Option<TorrentStanding>
    decreases n,
{
    if n <= 0 {
        None
    } else if torrents[n - 1].id == id {
        Some(torrents[n - 1])
    } else {
        standing_below(torrents, id, n - 1)
    }
}

/// What a torrent is doing; one that is not listed is stopped.
pub open spec fn state_of(torrents: Seq<TorrentStanding>, id: TorrentId) -> TorrentState {
    match standing_below(torrents, id, torrents.len() as int) {
        Some(standing) => standing.state,
        None => TorrentState::Stopped,
    }
}

/// Whether a torrent has uploaded as much as it may.
pub open spec fn is_capped(torrents: Seq<TorrentStanding>, id: TorrentId) -> bool {
    match standing_below(torrents, id, torrents.len() as int) {
        Some(standing) => standing.capped,
        None => false,
    }
}

fn find_standing(torrents: &Vec<TorrentStanding>, id: TorrentId) -> (result: Option<
    TorrentStanding,
>)
    ensures
        result == standing_below(torrents@, id, torrents@.len() as int),
{
    let mut n: usize = torrents.len();
    while n > 0
        invariant
            n <= torrents@.len(),
            standing_below(torrents@, id, torrents@.len() as int) == standing_below(
                torrents@,
                id,
                n as int,
            ),
        decreases n,
    {
        if torrents[n - 1].id == id {
            return Some(torrents[n - 1]);
        }
        n -= 1;
    }
    None
}

fn torrent_state(torrents: &Vec<TorrentStanding>, id: TorrentId) -> (state: TorrentState)
    ensures
        state == state_of(torrents@, id),
{
    match find_standing(torrents, id) {
        Some(standing) => standing.state,
        None => TorrentState::Stopped,
    }
}

/// An entry at the end of a round: the bytes of the round become a rate.
pub open spec fn aged(entry: ReputationEntry) -> ReputationEntry {
    ReputationEntry {
        reputation: PeerReputation {
            verified_rate: (entry.reputation.recent_verified / 10) as u64,
            recent_verified: 0,
            ..entry.reputation
        },
        ..entry
    }
}

/// Whether a session of a peer is open.
pub open spec fn is_active(sessions: Seq<UploadSession>, entry: ReputationEntry) -> bool {
    exists|i: int|
        0 <= i < sessions.len() && (#[trigger] sessions[i]).torrent_id == entry.torrent_id
            && sessions[i].peer == entry.peer
}

/// Whether a peer is still remembered: while it has a session, and for an hour
/// after it was last seen.
pub open spec fn remembered(
    sessions: Seq<UploadSession>,
    entry: ReputationEntry,
    now: int,
) -> bool {
    is_active(sessions, entry) || max_of(now - entry.reputation.last_seen, 0)
        < REPUTATION_RETENTION_NANOS
}

/// The reputations after a round.
pub open spec fn aged_reputations(
    entries: Seq<ReputationEntry>,
    sessions: Seq<UploadSession>,
    now: int,
) -> Seq<ReputationEntry>
    decreases entries.len(),
{
    if entries.len() == 0 {
        Seq::empty()
    } else {
        let before = aged_reputations(entries.drop_last(), sessions, now);
        if remembered(sessions, entries.last(), now) {
            before.push(aged(entries.last()))
        } else {
            before
        }
    }
}

/// A session as a candidate for a slot, if it wants one and its torrent may
/// still upload.
pub open spec fn candidate_for(
    session: UploadSession,
    entries: Seq<ReputationEntry>,
    torrents: Seq<TorrentStanding>,
    transfer: TransferPolicy,
    credit: Credit,
    now: u64,
) -> Option<UploadCandidate> {
    if !session.interested || is_capped(torrents, session.torrent_id) {
        None
    } else {
        let reputation = reputation_of(entries, session.torrent_id, session.peer, now);
        Some(
            UploadCandidate {
                session: session.session,
                contribution_score: contribution_of(reputation) as u64,
                verified_rate: reputation.verified_rate,
                recent_upload: max_of(session.uploaded - session.sampled_uploaded, 0) as u64,
                eligible: !trades(state_of(torrents, session.torrent_id)) || has_credit(
                    transfer,
                    reputation,
                    now as int,
                    credit,
                ),
                interesting: session.interesting,
            },
        )
    }
}

/// What a round is decided by.
pub struct RoundInput {
    pub sessions: Seq<UploadSession>,
    /// The reputations once they have aged.
    pub entries: Seq<ReputationEntry>,
    pub torrents: Seq<TorrentStanding>,
    pub credits: Seq<Credit>,
    pub transfer: TransferPolicy,
    pub round: int,
    pub now: u64,
}

/// The candidates of a torrent among the first `n` sessions.
pub open spec fn group_below(r: RoundInput, torrent: TorrentId, n: int) -> Seq<UploadCandidate>
    decreases n,
{
    if n <= 0 {
        Seq::empty()
    } else {
        let before = group_below(r, torrent, n - 1);
        if r.sessions[n - 1].torrent_id == torrent {
            match candidate_for(
                r.sessions[n - 1],
                r.entries,
                r.torrents,
                r.transfer,
                r.credits[n - 1],
                r.now,
            ) {
                Some(candidate) => before.push(candidate),
                None => before,
            }
        } else {
            before
        }
    }
}

/// The sessions of a torrent that are uploaded to in a round.
pub open spec fn chosen_in(r: RoundInput, torrent: TorrentId) -> Seq<u64> {
    selected_sessions(
        state_of(r.torrents, torrent),
        group_below(r, torrent, r.sessions.len() as int),
        r.round,
        r.transfer,
    )
}

/// A session after a round.
pub open spec fn settled(r: RoundInput, i: int) -> UploadSession {
    let session = r.sessions[i];
    UploadSession {
        reciprocal: trades(state_of(r.torrents, session.torrent_id)),
        recent_upload: max_of(session.uploaded - session.sampled_uploaded, 0) as u64,
        sampled_uploaded: session.uploaded,
        unchoked: session.interested && chosen_in(r, session.torrent_id).contains(
            session.session,
        ),
        ..session
    }
}

/// The sessions after a round.
pub open spec fn settled_sessions(r: RoundInput) -> Seq<UploadSession> {
    Seq::new(r.sessions.len(), |i: int| settled(r, i))
}

/// Whom to tell of the first `n` sessions: those that gained or lost their slot.
pub open spec fn actions_below(r: RoundInput, n: int) -> Seq<ChokeAction>
    decreases n,
{
    if n <= 0 {
        Seq::empty()
    } else {
        let before = actions_below(r, n - 1);
        if r.sessions[n - 1].unchoked != settled(r, n - 1).unchoked {
            before.push(
                ChokeAction {
                    session: r.sessions[n - 1].session,
                    unchoked: settled(r, n - 1).unchoked,
                },
            )
        } else {
            before
        }
    }
}

fn has_session_for(sessions: &Vec<UploadSession>, entry: &ReputationEntry) -> (result: bool)
    ensures
        result == is_active(sessions@, *entry),
{
    let mut i: usize = 0;
    while i < sessions.len()
        invariant
            i <= sessions@.len(),
            forall|k: int|
                0 <= k < i ==> !((#[trigger] sessions@[k]).torrent_id == entry.torrent_id
                    && sessions@[k].peer == entry.peer),
        decreases sessions@.len() - i,
    {
        if sessions[i].torrent_id == entry.torrent_id && sessions[i].peer.same(&entry.peer) {
            return true;
        }
        i += 1;
    }
    false
}

/// Every entry that is kept was made from one of the entries, in their order.
proof fn lemma_aged_unique(entries: Seq<ReputationEntry>, sessions: Seq<UploadSession>, now: int)
    requires
        unique_peers(entries),
    ensures
        unique_peers(aged_reputations(entries, sessions, now)),
        forall|i: int|
            0 <= i < aged_reputations(entries, sessions, now).len() ==> exists|k: int|
                0 <= k < entries.len() && (#[trigger] aged_reputations(
                    entries,
                    sessions,
                    now,
                )[i]) == aged(#[trigger] entries[k]),
    decreases entries.len(),
{
    if entries.len() > 0 {
        let front = entries.drop_last();
        lemma_aged_unique(front, sessions, now);
        let before = aged_reputations(front, sessions, now);
        let kept = aged_reputations(entries, sessions, now);
        assert forall|i: int| 0 <= i < kept.len() implies exists|k: int|
            0 <= k < entries.len() && (#[trigger] kept[i]) == aged(#[trigger] entries[k]) by {
            if i < before.len() {
                let k = choose|k: int|
                    0 <= k < front.len() && before[i] == aged(#[trigger] front[k]);
                assert(kept[i] == aged(entries[k]));
            } else {
                assert(kept[i] == aged(entries[entries.len() - 1]));
            }
        }
        assert forall|i: int, j: int| 0 <= i < j < kept.len() implies !belongs(
            #[trigger] kept[i],
            (#[trigger] kept[j]).torrent_id,
            kept[j].peer,
        ) by {
            assert(kept[i] == before[i]);
            if j < before.len() {
                assert(kept[j] == before[j]);
            } else {
                let k = choose|k: int|
                    0 <= k < front.len() && before[i] == aged(#[trigger] front[k]);
                assert(entries[k] == front[k]);
                assert(!belongs(
                    entries[k],
                    entries[entries.len() - 1].torrent_id,
                    entries[entries.len() - 1].peer,
                ));
            }
        }
    }
}

fn age_reputations(entries: &Vec<ReputationEntry>, sessions: &Vec<UploadSession>, now: u64) -> (kept:
    Vec<ReputationEntry>)
    ensures
        kept@ == aged_reputations(entries@, sessions@, now as int),
{
    let mut kept: Vec<ReputationEntry> = Vec::new();
    let mut i: usize = 0;
    assert(entries@.take(0) =~= Seq::empty());
    while i < entries.len()
        invariant
            i <= entries@.len(),
            kept@ == aged_reputations(entries@.take(i as int), sessions@, now as int),
        decreases entries@.len() - i,
    {
        proof {
            assert(entries@.take(i + 1).drop_last() =~= entries@.take(i as int));
            assert(entries@.take(i + 1).last() == entries@[i as int]);
        }
        let entry = entries[i];
        if has_session_for(sessions, &entry) || now.saturating_sub(entry.reputation.last_seen)
            < REPUTATION_RETENTION_NANOS {
            kept.push(
                ReputationEntry {
                    reputation: PeerReputation {
                        verified_rate: entry.reputation.recent_verified / UPLOAD_CHOKE_SECONDS,
                        recent_verified: 0,
                        ..entry.reputation
                    },
                    ..entry
                },
            );
        }
        i += 1;
    }
    assert(entries@.take(entries@.len() as int) =~= entries@);
    kept
}

/// Every candidate of a group was made from one of its torrent's sessions.
proof fn lemma_group_source(r: RoundInput, torrent: TorrentId, n: int, k: int) -> (i: int)
    requires
        0 <= n <= r.sessions.len(),
        0 <= k < group_below(r, torrent, n).len(),
    ensures
        0 <= i < n,
        r.sessions[i].torrent_id == torrent,
        candidate_for(
            r.sessions[i],
            r.entries,
            r.torrents,
            r.transfer,
            r.credits[i],
            r.now,
        ) == Some(group_below(r, torrent, n)[k]),
    decreases n,
{
    let before = group_below(r, torrent, n - 1);
    if k < before.len() {
        lemma_group_source(r, torrent, n - 1, k)
    } else {
        n - 1
    }
}

/// The candidates of a group are different sessions.
pub proof fn lemma_group_distinct(r: RoundInput, torrent: TorrentId, n: int)
    requires
        0 <= n <= r.sessions.len(),
        unique_sessions(r.sessions),
    ensures
        distinct_candidates(group_below(r, torrent, n)),
    decreases n,
{
    if n > 0 {
        lemma_group_distinct(r, torrent, n - 1);
        let before = group_below(r, torrent, n - 1);
        let after = group_below(r, torrent, n);
        assert forall|i: int, j: int| 0 <= i < j < after.len() implies (
        #[trigger] after[i]).session != (#[trigger] after[j]).session by {
            assert(after[i] == before[i]);
            if j < before.len() {
                assert(after[j] == before[j]);
            } else {
                let at = lemma_group_source(r, torrent, n - 1, i);
                assert(after[j].session == r.sessions[n - 1].session);
            }
        }
    }
}

/// A session is chosen in no torrent but its own.
proof fn lemma_chosen_in_own_torrent(r: RoundInput, torrent: TorrentId, i: int)
    requires
        unique_sessions(r.sessions),
        0 <= i < r.sessions.len(),
        chosen_in(r, torrent).contains(r.sessions[i].session),
    ensures
        r.sessions[i].torrent_id == torrent,
{
    let group = group_below(r, torrent, r.sessions.len() as int);
    let marks = selected(state_of(r.torrents, torrent), group, r.round, r.transfer);
    lemma_marked_sessions(group, marks, group.len() as int, r.sessions[i].session);
    let k = choose|k: int|
        0 <= k < group.len() && marks[k] && (#[trigger] group[k]).session
            == r.sessions[i].session;
    let at = lemma_group_source(r, torrent, r.sessions.len() as int, k);
    if at != i {
        let low = if at < i { at } else { i };
        let high = if at < i { i } else { at };
        assert(r.sessions[low].session != r.sessions[high].session);
    }
}

impl UploadPolicy {
    /// What the peers of the sessions have delivered, session by session, for
    /// the ratio to be applied to.
    pub fn verified_by_session(&self, now: u64) -> (verified: Vec<u64>)
        ensures
            verified@.len() == self.sessions@.len(),
            forall|i: int|
                0 <= i < verified@.len() ==> #[trigger] verified@[i] == reputation_of(
                    self.reputation@,
                    self.sessions@[i].torrent_id,
                    self.sessions@[i].peer,
                    now,
                ).verified_from,
    {
        let mut verified: Vec<u64> = Vec::new();
        let mut i: usize = 0;
        while i < self.sessions.len()
            invariant
                i <= self.sessions@.len(),
                verified@.len() == i,
                forall|k: int|
                    0 <= k < i ==> #[trigger] verified@[k] == reputation_of(
                        self.reputation@,
                        self.sessions@[k].torrent_id,
                        self.sessions@[k].peer,
                        now,
                    ).verified_from,
            decreases self.sessions@.len() - i,
        {
            let entry = self.sessions[i];
            verified.push(self.reputation(entry.torrent_id, &entry.peer, now).verified_from);
            i += 1;
        }
        verified
    }

    fn candidate(
        &self,
        i: usize,
        torrents: &Vec<TorrentStanding>,
        transfer: &TransferPolicy,
        credit: Credit,
        now: u64,
    ) -> (result: Option<UploadCandidate>)
        requires
            i < self.sessions@.len(),
        ensures
            result == candidate_for(
                self.sessions@[i as int],
                self.reputation@,
                torrents@,
                *transfer,
                credit,
                now,
            ),
    {
        let session = self.sessions[i];
        if !session.interested {
            return None;
        }
        let mut state = TorrentState::Stopped;
        if let Some(standing) = find_standing(torrents, session.torrent_id) {
            if standing.capped {
                return None;
            }
            state = standing.state;
        }
        let reciprocal: bool = match state {
            TorrentState::Downloading | TorrentState::Starting => true,
            _ => false,
        };
        let reputation = self.reputation(session.torrent_id, &session.peer, now);
        Some(
            UploadCandidate {
                session: session.session,
                contribution_score: reciprocal_contribution(reputation),
                verified_rate: reputation.verified_rate,
                recent_upload: session.uploaded.saturating_sub(session.sampled_uploaded),
                eligible: !reciprocal || has_reciprocal_upload_credit(
                    transfer,
                    reputation,
                    now,
                    credit,
                ),
                interesting: session.interesting,
            },
        )
    }

    fn group(
        &self,
        torrent: TorrentId,
        torrents: &Vec<TorrentStanding>,
        transfer: &TransferPolicy,
        credits: &Vec<Credit>,
        now: u64,
        Ghost(r): Ghost<RoundInput>,
    ) -> (candidates: Vec<UploadCandidate>)
        requires
            credits@.len() == self.sessions@.len(),
            r.sessions == self.sessions@,
            r.entries == self.reputation@,
            r.torrents == torrents@,
            r.credits == credits@,
            r.transfer == *transfer,
            r.now == now,
        ensures
            candidates@ == group_below(r, torrent, r.sessions.len() as int),
    {
        let mut candidates: Vec<UploadCandidate> = Vec::new();
        let mut i: usize = 0;
        while i < self.sessions.len()
            invariant
                credits@.len() == self.sessions@.len(),
                r.sessions == self.sessions@,
                r.entries == self.reputation@,
                r.torrents == torrents@,
                r.credits == credits@,
                r.transfer == *transfer,
                r.now == now,
                i <= self.sessions@.len(),
                candidates@ == group_below(r, torrent, i as int),
            decreases self.sessions@.len() - i,
        {
            if self.sessions[i].torrent_id == torrent {
                if let Some(candidate) = self.candidate(i, torrents, transfer, credits[i], now) {
                    candidates.push(candidate);
                }
            }
            i += 1;
        }
        candidates
    }

    /// The sessions that are uploaded to in this round, whatever their torrent.
    fn choose_sessions(
        &self,
        torrents: &Vec<TorrentStanding>,
        transfer: &TransferPolicy,
        credits: &Vec<Credit>,
        now: u64,
        Ghost(r): Ghost<RoundInput>,
    ) -> (desired: Vec<u64>)
        requires
            self.wf(),
            credits@.len() == self.sessions@.len(),
            r.sessions == self.sessions@,
            r.entries == self.reputation@,
            r.torrents == torrents@,
            r.credits == credits@,
            r.transfer == *transfer,
            r.round == self.round,
            r.now == now,
        ensures
            forall|i: int|
                0 <= i < r.sessions.len() ==> desired@.contains(
                    (#[trigger] r.sessions[i]).session,
                ) == chosen_in(r, r.sessions[i].torrent_id).contains(r.sessions[i].session),
    {
        let mut desired: Vec<u64> = Vec::new();
        let mut handled: Vec<TorrentId> = Vec::new();
        let mut i: usize = 0;
        while i < self.sessions.len()
            invariant
                self.wf(),
                credits@.len() == self.sessions@.len(),
                r.sessions == self.sessions@,
                r.entries == self.reputation@,
                r.torrents == torrents@,
                r.credits == credits@,
                r.transfer == *transfer,
                r.round == self.round,
                r.now == now,
                i <= self.sessions@.len(),
                forall|k: int|
                    0 <= k < i ==> handled@.contains((#[trigger] r.sessions[k]).torrent_id),
                forall|id: u64|
                    #![trigger desired@.contains(id)]
                    desired@.contains(id) <==> exists|t: int|
                        0 <= t < handled@.len() && chosen_in(r, #[trigger] handled@[t]).contains(
                            id,
                        ),
            decreases self.sessions@.len() - i,
        {
            let torrent = self.sessions[i].torrent_id;
            let ghost listed = handled@;
            if !contains_torrent(&handled, torrent) {
                let candidates = self.group(torrent, torrents, transfer, credits, now, Ghost(r));
                proof {
                    lemma_group_distinct(r, torrent, r.sessions.len() as int);
                }
                let state = torrent_state(torrents, torrent);
                let mut chosen = select_upload_sessions(
                    state,
                    candidates.as_slice(),
                    self.round,
                    transfer,
                );
                let ghost picked = chosen@;
                let ghost before = desired@;
                desired.append(&mut chosen);
                handled.push(torrent);
                proof {
                    assert(picked == chosen_in(r, torrent));
                    assert(desired@ == before + picked);
                    assert forall|id: u64|
                        #![trigger desired@.contains(id)]
                        desired@.contains(id) <==> exists|t: int|
                            0 <= t < handled@.len() && chosen_in(
                                r,
                                #[trigger] handled@[t],
                            ).contains(id) by {
                        lemma_contains_concat(before, picked, id);
                        if before.contains(id) {
                            let t = choose|t: int|
                                0 <= t < listed.len() && chosen_in(
                                    r,
                                    #[trigger] listed[t],
                                ).contains(id);
                            assert(handled@[t] == listed[t]);
                        }
                        if picked.contains(id) {
                            assert(handled@[listed.len() as int] == torrent);
                        }
                        if exists|t: int|
                            0 <= t < handled@.len() && chosen_in(
                                r,
                                #[trigger] handled@[t],
                            ).contains(id) {
                            let t = choose|t: int|
                                0 <= t < handled@.len() && chosen_in(
                                    r,
                                    #[trigger] handled@[t],
                                ).contains(id);
                            if t < listed.len() {
                                assert(handled@[t] == listed[t]);
                                assert(before.contains(id));
                            }
                        }
                    }
                }
            }
            proof {
                assert forall|k: int| 0 <= k < i + 1 implies handled@.contains(
                    (#[trigger] r.sessions[k]).torrent_id,
                ) by {
                    if k < i {
                        assert(listed.contains(r.sessions[k].torrent_id));
                        let t = choose|t: int|
                            0 <= t < listed.len() && listed[t] == r.sessions[k].torrent_id;
                        assert(handled@[t] == listed[t]);
                    } else if !listed.contains(torrent) {
                        assert(handled@[listed.len() as int] == torrent);
                    }
                }
            }
            i += 1;
        }
        proof {
            assert forall|k: int| 0 <= k < r.sessions.len() implies desired@.contains(
                (#[trigger] r.sessions[k]).session,
            ) == chosen_in(r, r.sessions[k].torrent_id).contains(r.sessions[k].session) by {
                let id = r.sessions[k].session;
                let own = r.sessions[k].torrent_id;
                if desired@.contains(id) {
                    let t = choose|t: int|
                        0 <= t < handled@.len() && chosen_in(r, #[trigger] handled@[t]).contains(
                            id,
                        );
                    lemma_chosen_in_own_torrent(r, handled@[t], k);
                }
                if chosen_in(r, own).contains(id) {
                    assert(handled@.contains(own));
                    let t = choose|t: int| 0 <= t < handled@.len() && handled@[t] == own;
                    assert(chosen_in(r, handled@[t]).contains(id));
                }
            }
        }
        desired
    }

    /// Hands out the upload slots of every torrent anew. The credits stand for
    /// what the sessions' peers have earned, session by session.
    pub fn rebalance_upload_slots(
        &mut self,
        torrents: &Vec<TorrentStanding>,
        transfer: &TransferPolicy,
        credits: &Vec<Credit>,
        now: u64,
    ) -> (actions: Vec<ChokeAction>)
        requires
            old(self).wf(),
            credits@.len() == old(self).sessions@.len(),
        ensures
            final(self).wf(),
            ({
                let r = RoundInput {
                    sessions: old(self).sessions@,
                    entries: aged_reputations(
                        old(self).reputation@,
                        old(self).sessions@,
                        now as int,
                    ),
                    torrents: torrents@,
                    credits: credits@,
                    transfer: *transfer,
                    round: old(self).round as int,
                    now,
                };
                &&& final(self).sessions@ == settled_sessions(r)
                &&& final(self).reputation@ == r.entries
                &&& actions@ == actions_below(r, r.sessions.len() as int)
            }),
            final(self).round as int == (old(self).round + max_of(
                transfer.optimistic_upload_slots as int,
                1,
            )) % 0x1_0000_0000_0000_0000,
            final(self).limiter == old(self).limiter,
    {
        proof {
            lemma_aged_unique(self.reputation@, self.sessions@, now as int);
        }
        self.reputation = age_reputations(&self.reputation, &self.sessions, now);
        let ghost r = RoundInput {
            sessions: self.sessions@,
            entries: self.reputation@,
            torrents: torrents@,
            credits: credits@,
            transfer: *transfer,
            round: self.round as int,
            now,
        };
        let desired = self.choose_sessions(torrents, transfer, credits, now, Ghost(r));
        let step: u64 = if transfer.optimistic_upload_slots > 1 {
            transfer.optimistic_upload_slots as u64
        } else {
            1
        };
        self.round = self.round.wrapping_add(step);
        let ghost reputation = self.reputation;
        let ghost round = self.round;
        let mut actions: Vec<ChokeAction> = Vec::new();
        let mut i: usize = 0;
        while i < self.sessions.len()
            invariant
                r.sessions == old(self).sessions@,
                r.torrents == torrents@,
                unique_sessions(r.sessions),
                self.sessions@.len() == r.sessions.len(),
                self.reputation == reputation,
                self.round == round,
                self.limiter == old(self).limiter,
                i <= r.sessions.len(),
                forall|k: int|
                    0 <= k < r.sessions.len() ==> desired@.contains(
                        (#[trigger] r.sessions[k]).session,
                    ) == chosen_in(r, r.sessions[k].torrent_id).contains(r.sessions[k].session),
                forall|k: int| 0 <= k < i ==> self.sessions@[k] == settled(r, k),
                forall|k: int| i <= k < r.sessions.len() ==> self.sessions@[k] == r.sessions[k],
                actions@ == actions_below(r, i as int),
            decreases r.sessions.len() - i,
        {
            let entry = self.sessions[i];
            assert(entry == r.sessions[i as int]);
            let reciprocal: bool = match torrent_state(torrents, entry.torrent_id) {
                TorrentState::Downloading | TorrentState::Starting => true,
                _ => false,
            };
            let unchoked: bool = entry.interested && contains_session(&desired, entry.session);
            let next = UploadSession {
                reciprocal,
                recent_upload: entry.uploaded.saturating_sub(entry.sampled_uploaded),
                sampled_uploaded: entry.uploaded,
                unchoked,
                ..entry
            };
            assert(next == settled(r, i as int));
            self.sessions[i] = next;
            if entry.unchoked != unchoked {
                actions.push(ChokeAction { session: entry.session, unchoked });
            }
            i += 1;
        }
        proof {
            assert(self.sessions@ =~= settled_sessions(r));
            assert forall|i: int, j: int| 0 <= i < j < self.sessions@.len() implies (
            #[trigger] self.sessions@[i]).session != (#[trigger] self.sessions@[j]).session by {
                assert(self.sessions@[i].session == r.sessions[i].session);
                assert(self.sessions@[j].session == r.sessions[j].session);
            }
        }
        actions
    }
}

fn contains_torrent(torrents: &Vec<TorrentId>, id: TorrentId) -> (result: bool)
    ensures
        result == torrents@.contains(id),
{
    let mut i: usize = 0;
    while i < torrents.len()
        invariant
            i <= torrents@.len(),
            forall|k: int| 0 <= k < i ==> torrents@[k] != id,
        decreases torrents@.len() - i,
    {
        if torrents[i] == id {
            return true;
        }
        i += 1;
    }
    false
}

fn contains_session(sessions: &Vec<u64>, id: u64) -> (result: bool)
    ensures
        result == sessions@.contains(id),
{
    let mut i: usize = 0;
    while i < sessions.len()
        invariant
            i <= sessions@.len(),
            forall|k: int| 0 <= k < i ==> sessions@[k] != id,
        decreases sessions@.len() - i,
    {
        if sessions[i] == id {
            return true;
        }
        i += 1;
    }
    false
}

proof fn lemma_contains_concat(a: Seq<u64>, b: Seq<u64>, x: u64)
    ensures
        (a + b).contains(x) <==> a.contains(x) || b.contains(x),
{
    if a.contains(x) {
        let i = choose|i: int| 0 <= i < a.len() && a[i] == x;
        assert((a + b)[i] == x);
    }
    if b.contains(x) {
        let i = choose|i: int| 0 <= i < b.len() && b[i] == x;
        assert((a + b)[a.len() + i] == x);
    }
    if (a + b).contains(x) {
        let i = choose|i: int| 0 <= i < (a + b).len() && (a + b)[i] == x;
        if i < a.len() {
            assert(a[i] == x);
        } else {
            assert(b[i - a.len()] == x);
        }
    }
}

/// After a round only interested peers are unchoked, and while a torrent
/// downloads or starts only such as hold pieces it still needs.
pub proof fn law_settled_peers_can_repay(r: RoundInput, i: int)
    requires
        unique_sessions(r.sessions),
        r.credits.len() == r.sessions.len(),
        0 <= i < r.sessions.len(),
        settled(r, i).unchoked,
    ensures
        r.sessions[i].interested,
        !is_capped(r.torrents, r.sessions[i].torrent_id),
        trades(state_of(r.torrents, r.sessions[i].torrent_id)) ==> r.sessions[i].interesting
            && has_credit(
            r.transfer,
            reputation_of(r.entries, r.sessions[i].torrent_id, r.sessions[i].peer, r.now),
            r.now as int,
            r.credits[i],
        ),
{
    let torrent = r.sessions[i].torrent_id;
    let group = group_below(r, torrent, r.sessions.len() as int);
    let marks = selected(state_of(r.torrents, torrent), group, r.round, r.transfer);
    lemma_marked_sessions(group, marks, group.len() as int, r.sessions[i].session);
    let k = choose|k: int|
        0 <= k < group.len() && marks[k] && (#[trigger] group[k]).session
            == r.sessions[i].session;
    let at = lemma_group_source(r, torrent, r.sessions.len() as int, k);
    if at != i {
        let low = if at < i { at } else { i };
        let high = if at < i { i } else { at };
        assert(r.sessions[low].session != r.sessions[high].session);
    }
}

} // verus!
