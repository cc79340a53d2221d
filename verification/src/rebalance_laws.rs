//! What a round of handing out slots comes to for each session.

use crate::choke_laws::{law_faster_peers_are_chosen_first, law_seeding_follows_recent_upload};
use crate::error::TorrentId;
use crate::rebalance::{
    actions_below, aged_reputations, candidate_for, group_below, is_active,
    lemma_group_distinct, settled_sessions, standing_below, RoundInput,
};
use crate::upload::{
    contribution_of, has_credit, reputation_of, unique_sessions, ChokeAction, ReputationEntry,
    TorrentStanding, UploadSession,
};
use vstd::prelude::*;

verus! {

/// What is said last of a torrent.
pub open spec fn stands(torrents: Seq<TorrentStanding>, at: int, id: TorrentId) -> bool {
    &&& 0 <= at < torrents.len()
    &&& torrents[at].id == id
    &&& forall|k: int| at < k < torrents.len() ==> (#[trigger] torrents[k]).id != id
}

proof fn lemma_stands(torrents: Seq<TorrentStanding>, at: int, id: TorrentId, n: int)
    requires
        stands(torrents, at, id),
        at < n <= torrents.len(),
    ensures
        standing_below(torrents, id, n) == Some(torrents[at]),
    decreases n,
{
    if at < n - 1 {
        assert(torrents[n - 1].id != id);
        lemma_stands(torrents, at, id, n - 1);
    }
}

/// The candidates of one torrent stand in the order of their sessions.
proof fn lemma_group_places(r: RoundInput, torrent: TorrentId, n: int, i: int) -> (k: int)
    requires
        0 <= i < n <= r.sessions.len(),
        unique_sessions(r.sessions),
        r.sessions[i].torrent_id == torrent,
        candidate_for(
            r.sessions[i],
            r.entries,
            r.torrents,
            r.transfer,
            r.credits[i],
            r.now,
        ) is Some,
    ensures
        k == group_below(r, torrent, i).len(),
        0 <= k < group_below(r, torrent, n).len(),
        Some(group_below(r, torrent, n)[k]) == candidate_for(
            r.sessions[i],
            r.entries,
            r.torrents,
            r.transfer,
            r.credits[i],
            r.now,
        ),
    decreases n,
{
    if i < n - 1 {
        lemma_group_places(r, torrent, n - 1, i)
    } else {
        group_below(r, torrent, i).len() as int
    }
}

proof fn lemma_group_grows(r: RoundInput, torrent: TorrentId, a: int, b: int)
    requires
        0 <= a <= b,
    ensures
        group_below(r, torrent, a).len() <= group_below(r, torrent, b).len(),
    decreases b,
{
    if a < b {
        lemma_group_grows(r, torrent, a, b - 1);
    }
}

/// After a round, of two interested sessions of a torrent that downloads, the
/// one whose peer delivered verified data faster has a regular slot whenever the
/// other has one; at equal rates the one whose peer gave the greater surplus;
/// then the one that was uploaded more since the last round; and then the one
/// that was opened first.
pub proof fn law_faster_sessions_keep_slots(r: RoundInput, at: int, i: int, j: int)
    requires
        unique_sessions(r.sessions),
        r.credits.len() == r.sessions.len(),
        0 <= i < r.sessions.len(),
        0 <= j < r.sessions.len(),
        i != j,
        r.sessions[i].torrent_id == r.sessions[j].torrent_id,
        stands(r.torrents, at, r.sessions[i].torrent_id),
        r.torrents[at].state is Downloading || r.torrents[at].state is Starting,
        !r.torrents[at].capped,
        r.transfer.optimistic_upload_slots == 0,
        r.sessions[i].interested,
        r.sessions[i].interesting,
        ({
            let torrent = r.sessions[i].torrent_id;
            let a = reputation_of(r.entries, torrent, r.sessions[i].peer, r.now);
            let b = reputation_of(r.entries, torrent, r.sessions[j].peer, r.now);
            let more = r.sessions[i].uploaded - r.sessions[i].sampled_uploaded;
            let less = r.sessions[j].uploaded - r.sessions[j].sampled_uploaded;
            &&& has_credit(r.transfer, a, r.now as int, r.credits[i])
            &&& a.verified_rate > 0 || contribution_of(a) > 0
            &&& more >= 0 && less >= 0
            &&& {
                ||| a.verified_rate > b.verified_rate
                ||| a.verified_rate == b.verified_rate && contribution_of(a) > contribution_of(b)
                ||| a.verified_rate == b.verified_rate && contribution_of(a) == contribution_of(b)
                    && (more > less || (more == less && i < j))
            }
        }),
        settled_sessions(r)[j].unchoked,
    ensures
        settled_sessions(r)[i].unchoked,
{
    let torrent = r.sessions[i].torrent_id;
    let n = r.sessions.len() as int;
    lemma_stands(r.torrents, at, torrent, r.torrents.len() as int);
    lemma_group_distinct(r, torrent, n);
    let group = group_below(r, torrent, n);
    let a = lemma_group_places(r, torrent, n, i);
    let b = lemma_group_places(r, torrent, n, j);
    if i < j {
        lemma_group_grows(r, torrent, i + 1, j);
    } else {
        lemma_group_grows(r, torrent, j + 1, i);
    }
    assert(a != b);
    assert(i < j ==> a < b);
    assert(group[a].session == r.sessions[i].session);
    assert(group[b].session == r.sessions[j].session);
    law_faster_peers_are_chosen_first(r.torrents[at].state, group, r.round, r.transfer, a, b);
}

/// After a round of a torrent that seeds, of two interested sessions the one that
/// was uploaded more since the last round has a regular slot whenever the other
/// has one, and of two that were uploaded the same the one opened first.
pub proof fn law_seeding_sessions_keep_slots(r: RoundInput, at: int, i: int, j: int)
    requires
        unique_sessions(r.sessions),
        r.credits.len() == r.sessions.len(),
        0 <= i < r.sessions.len(),
        0 <= j < r.sessions.len(),
        i != j,
        r.sessions[i].torrent_id == r.sessions[j].torrent_id,
        stands(r.torrents, at, r.sessions[i].torrent_id),
        r.torrents[at].state is Seeding,
        !r.torrents[at].capped,
        r.transfer.optimistic_upload_slots == 0,
        r.sessions[i].interested,
        ({
            let more = r.sessions[i].uploaded - r.sessions[i].sampled_uploaded;
            let less = r.sessions[j].uploaded - r.sessions[j].sampled_uploaded;
            &&& more >= 0 && less >= 0
            &&& more > less || (more == less && i < j)
        }),
        settled_sessions(r)[j].unchoked,
    ensures
        settled_sessions(r)[i].unchoked,
{
    let torrent = r.sessions[i].torrent_id;
    let n = r.sessions.len() as int;
    lemma_stands(r.torrents, at, torrent, r.torrents.len() as int);
    lemma_group_distinct(r, torrent, n);
    let group = group_below(r, torrent, n);
    let a = lemma_group_places(r, torrent, n, i);
    let b = lemma_group_places(r, torrent, n, j);
    if i < j {
        lemma_group_grows(r, torrent, i + 1, j);
    } else {
        lemma_group_grows(r, torrent, j + 1, i);
    }
    assert(a != b);
    assert(group[a].session == r.sessions[i].session);
    assert(group[b].session == r.sessions[j].session);
    law_seeding_follows_recent_upload(group, r.round, r.transfer, a, b);
}

/// A round changes of a session only what it decides: whether it has a slot,
/// whether its torrent trades, and what it was uploaded since the last round.
/// A session that is not interested has none.
pub proof fn law_round_decides_the_slot_alone(r: RoundInput, i: int)
    requires
        0 <= i < r.sessions.len(),
    ensures
        ({
            let before = r.sessions[i];
            let after = settled_sessions(r)[i];
            &&& settled_sessions(r).len() == r.sessions.len()
            &&& after.session == before.session
            &&& after.torrent_id == before.torrent_id
            &&& after.peer == before.peer
            &&& after.interested == before.interested
            &&& after.interesting == before.interesting
            &&& after.uploaded == before.uploaded
            &&& after.sampled_uploaded == before.uploaded
            &&& before.sampled_uploaded <= before.uploaded ==> after.recent_upload
                + before.sampled_uploaded == before.uploaded
            &&& !before.interested ==> !after.unchoked
        }),
{
}

/// Told of a round is exactly who gained or lost a slot by it, each once and of
/// how it stands now.
pub proof fn law_told_is_whose_slot_changed(r: RoundInput, session: u64, unchoked: bool)
    ensures
        actions_below(r, r.sessions.len() as int).contains(ChokeAction { session, unchoked })
            <==> exists|i: int|
            0 <= i < r.sessions.len() && (#[trigger] r.sessions[i]).session == session
                && r.sessions[i].unchoked != unchoked && settled_sessions(r)[i].unchoked
                == unchoked,
        unique_sessions(r.sessions) ==> actions_below(r, r.sessions.len() as int).len()
            <= r.sessions.len(),
{
    lemma_told(r, r.sessions.len() as int, session, unchoked);
}

proof fn lemma_told(r: RoundInput, n: int, session: u64, unchoked: bool)
    requires
        0 <= n <= r.sessions.len(),
    ensures
        actions_below(r, n).contains(ChokeAction { session, unchoked }) <==> exists|i: int|
            0 <= i < n && (#[trigger] r.sessions[i]).session == session && r.sessions[i].unchoked
                != unchoked && settled_sessions(r)[i].unchoked == unchoked,
        actions_below(r, n).len() <= n,
    decreases n,
{
    if n > 0 {
        lemma_told(r, n - 1, session, unchoked);
        let told = ChokeAction { session, unchoked };
        let before = actions_below(r, n - 1);
        let all = actions_below(r, n);
        if all.contains(told) {
            let k = choose|k: int| 0 <= k < all.len() && all[k] == told;
            if k < before.len() {
                assert(before[k] == told);
                assert(before.contains(told));
                let i = choose|i: int|
                    0 <= i < n - 1 && (#[trigger] r.sessions[i]).session == session
                        && r.sessions[i].unchoked != unchoked && settled_sessions(r)[i].unchoked
                        == unchoked;
                assert(r.sessions[i].session == session);
            } else {
                assert(r.sessions[n - 1].session == session);
            }
        }
        if exists|i: int|
            0 <= i < n && (#[trigger] r.sessions[i]).session == session && r.sessions[i].unchoked
                != unchoked && settled_sessions(r)[i].unchoked == unchoked {
            let i = choose|i: int|
                0 <= i < n && (#[trigger] r.sessions[i]).session == session
                    && r.sessions[i].unchoked != unchoked && settled_sessions(r)[i].unchoked
                    == unchoked;
            if i < n - 1 {
                assert(before.contains(told));
                let k = choose|k: int| 0 <= k < before.len() && before[k] == told;
                assert(all[k] == told);
            } else {
                assert(all[all.len() - 1] == told);
            }
        }
    }
}

/// A peer is forgotten: it has no session, and was not seen for an hour.
pub open spec fn is_forgotten(
    sessions: Seq<UploadSession>,
    entry: ReputationEntry,
    now: u64,
) -> bool {
    &&& entry.reputation.last_seen + 3_600_000_000_000 <= now
    &&& forall|i: int|
        0 <= i < sessions.len() ==> (#[trigger] sessions[i]).torrent_id != entry.torrent_id
            || sessions[i].peer != entry.peer
}

/// The rate of a peer is a tenth of what it delivered over the last round, which
/// lasts ten seconds; the count begins anew, and all else that is known stays.
pub open spec fn is_aged(before: ReputationEntry, after: ReputationEntry) -> bool {
    let was = before.reputation;
    let is = after.reputation;
    &&& after.torrent_id == before.torrent_id
    &&& after.peer == before.peer
    &&& 10 * is.verified_rate <= was.recent_verified < 10 * (is.verified_rate + 1)
    &&& is.recent_verified == 0
    &&& is.verified_from == was.verified_from
    &&& is.uploaded_to == was.uploaded_to
    &&& is.failures == was.failures
    &&& is.first_seen == was.first_seen
    &&& is.last_seen == was.last_seen
}

/// After a round every peer is known as before but those that are forgotten, in
/// the same order and with its rate taken anew.
pub proof fn law_peers_age_with_a_round(
    entries: Seq<ReputationEntry>,
    sessions: Seq<UploadSession>,
    now: u64,
)
    ensures
        ({
            let kept = entries.filter(|entry: ReputationEntry| !is_forgotten(sessions, entry, now));
            let after = aged_reputations(entries, sessions, now as int);
            &&& after.len() == kept.len()
            &&& forall|i: int|
                0 <= i < kept.len() ==> is_aged(#[trigger] kept[i], after[i])
        }),
    decreases entries.len(),
{
    reveal(Seq::filter);
    if entries.len() > 0 {
        law_peers_age_with_a_round(entries.drop_last(), sessions, now);
        let entry = entries.last();
        assert(is_active(sessions, entry) == !(forall|i: int|
            0 <= i < sessions.len() ==> (#[trigger] sessions[i]).torrent_id != entry.torrent_id
                || sessions[i].peer != entry.peer));
    }
}

} // verus!
