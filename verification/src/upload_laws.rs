//! What the upload policy holds to over any run of calls.

use crate::address::PeerKey;
use crate::choke::TransferPolicy;
use crate::error::TorrentId;
use crate::upload::{
    belongs, block_asked, charged, contribution_of, delay_for, entry_at, has_credit,
    interest_changed, lemma_entry_at, occupied_below, refilled, reputation_of, session_at,
    unique_sessions, with_reputation, Credit, PeerReputation, ReputationEntry, UploadLimiter,
    UploadSession,
};
use vstd::prelude::*;

verus! {

/// How much is charged, and when.
pub struct Charge {
    pub bytes: u64,
    pub at: u64,
}

/// The limiter after a run of charges at one rate.
pub open spec fn after_charges(
    limiter: UploadLimiter,
    rate: int,
    charges: Seq<Charge>,
) -> UploadLimiter
    decreases charges.len(),
{
    if charges.len() == 0 {
        limiter
    } else {
        charged(
            after_charges(limiter, rate, charges.drop_last()),
            rate,
            charges.last().bytes as int,
            charges.last().at as int,
        )
    }
}

/// How many bytes a run charges.
pub open spec fn bytes_charged(charges: Seq<Charge>) -> int
    decreases charges.len(),
{
    if charges.len() == 0 {
        0
    } else {
        bytes_charged(charges.drop_last()) + charges.last().bytes
    }
}

/// Charges in the order of time.
pub open spec fn in_order(charges: Seq<Charge>) -> bool {
    forall|i: int, j: int|
        0 <= i <= j < charges.len() ==> (#[trigger] charges[i]).at <= (#[trigger] charges[j]).at
}

/// Between two charges the balance grows by what the rate allows for the time
/// between them, rounded down, and never beyond what it allows for a second.
pub proof fn law_balance_grows_with_time(
    limiter: UploadLimiter,
    rate: u64,
    bytes: u64,
    last: u64,
    now: u64,
)
    requires
        rate > 0,
        limiter.last_refill == Some(last),
        last <= now,
        limiter.tokens >= i128::MIN + bytes,
    ensures
        ({
            let after = charged(limiter, rate as int, bytes as int, now as int);
            let grown = after.tokens + bytes - limiter.tokens;
            &&& after.last_refill == Some(now)
            &&& grown * 1_000_000_000 <= rate * (now - last)
            &&& after.tokens + bytes <= rate
            &&& after.tokens + bytes < rate && rate * (now - last) <= i128::MAX ==> rate * (now
                - last) < (grown + 1) * 1_000_000_000
        }),
{
    assert(0 <= rate * (now - last)) by (nonlinear_arith)
        requires
            rate > 0,
            now >= last,
    ;
}

/// The first charge of a fresh limiter finds a second's worth.
pub proof fn law_first_charge_finds_a_second(rate: u64, bytes: u64, now: u64)
    requires
        rate > 0,
    ensures
        charged(
            UploadLimiter { last_refill: None, tokens: 0 },
            rate as int,
            bytes as int,
            now as int,
        ).tokens == rate - bytes,
{
}

/// Without a ceiling nothing is counted and nobody waits.
pub proof fn law_no_ceiling_means_no_wait(limiter: UploadLimiter, bytes: u64, now: u64)
    ensures
        charged(limiter, 0, bytes as int, now as int) == limiter,
        delay_for(limiter.tokens as int, 0) == 0,
{
}

/// A charge waits until the rate has made good for what is owed, and not longer:
/// a nanosecond more would be too long, and a nanosecond less too short.
pub proof fn law_wait_makes_good(tokens: int, rate: int)
    requires
        rate > 0,
        -tokens * 1_000_000_000 <= u128::MAX,
        delay_for(tokens, rate) < u64::MAX,
    ensures
        tokens >= 0 ==> delay_for(tokens, rate) == 0,
        tokens < 0 ==> rate * delay_for(tokens, rate) <= -tokens * 1_000_000_000 < rate * (
        delay_for(tokens, rate) + 1),
{
    if tokens < 0 {
        let owed = -tokens * 1_000_000_000;
        vstd::arithmetic::div_mod::lemma_fundamental_div_mod(owed, rate);
        vstd::arithmetic::div_mod::lemma_mod_bound(owed, rate);
        let wait = owed / rate;
        assert(rate * (wait + 1) == rate * wait + rate) by (nonlinear_arith);
    }
}

/// Over any run of charges at one rate, what was charged and is left on the
/// balance comes to no more than a second's worth and what the rate allows for
/// the time that passed.
pub proof fn law_run_stays_under_the_ceiling(
    limiter: UploadLimiter,
    rate: u64,
    charges: Seq<Charge>,
)
    requires
        rate > 0,
        charges.len() > 0,
        in_order(charges),
        limiter.tokens <= rate,
        bytes_charged(charges) - limiter.tokens <= 0x4000_0000_0000_0000_0000_0000_0000_0000,
        bytes_charged(charges) <= 0x4000_0000_0000_0000_0000_0000_0000_0000,
    ensures
        ({
            let after = after_charges(limiter, rate as int, charges);
            let passed = charges.last().at - charges[0].at;
            (after.tokens + bytes_charged(charges)) * 1_000_000_000 <= rate * 1_000_000_000 + rate
                * passed
        }),
{
    lemma_run(limiter, rate, charges);
}

proof fn lemma_run(limiter: UploadLimiter, rate: u64, charges: Seq<Charge>)
    requires
        rate > 0,
        charges.len() > 0,
        in_order(charges),
        bytes_charged(charges) - limiter.tokens <= 0x4000_0000_0000_0000_0000_0000_0000_0000,
        bytes_charged(charges) <= 0x4000_0000_0000_0000_0000_0000_0000_0000,
    ensures
        ({
            let after = after_charges(limiter, rate as int, charges);
            let passed = charges.last().at - charges[0].at;
            &&& after.last_refill == Some(charges.last().at)
            &&& after.tokens <= rate
            &&& (after.tokens + bytes_charged(charges)) * 1_000_000_000 <= rate * 1_000_000_000
                + rate * passed
            &&& bytes_charged(charges) >= 0
            &&& after.tokens >= limiter.tokens - bytes_charged(charges) || after.tokens
                >= -bytes_charged(charges)
        }),
    decreases charges.len(),
{
    let front = charges.drop_last();
    let last = charges.last();
    reveal_with_fuel(after_charges, 2);
    reveal_with_fuel(bytes_charged, 2);
    if front.len() == 0 {
        assert(charges[0] == last);
        assert(rate * (last.at - charges[0].at) == 0) by (nonlinear_arith)
            requires
                last.at == charges[0].at,
        ;
        match limiter.last_refill {
            Some(before) => {
                lemma_refill_positive(limiter, rate, last.at);
            },
            None => {},
        }
    } else {
        assert(in_order(front)) by {
            assert forall|i: int, j: int| 0 <= i <= j < front.len() implies (
            #[trigger] front[i]).at <= (#[trigger] front[j]).at by {
                assert(front[i] == charges[i]);
                assert(front[j] == charges[j]);
            }
        }
        lemma_run(limiter, rate, front);
        let middle = after_charges(limiter, rate as int, front);
        let start = charges[0].at;
        assert(front[0] == charges[0]);
        assert(front.last() == charges[charges.len() - 2]);
        assert(front.last().at <= last.at);
        lemma_refill_positive(middle, rate, last.at);
        law_balance_grows_with_time(middle, rate, last.bytes, front.last().at, last.at);
        assert(rate * (front.last().at - start) + rate * (last.at - front.last().at) == rate * (
        last.at - start)) by (nonlinear_arith);
    }
}

/// Time never takes from a balance that is below a second's worth.
proof fn lemma_refill_positive(limiter: UploadLimiter, rate: u64, now: u64)
    requires
        limiter.last_refill is Some,
    ensures
        refilled(limiter, rate as int, now as int) >= limiter.tokens || refilled(
            limiter,
            rate as int,
            now as int,
        ) == rate,
{
    let last = limiter.last_refill->0;
    if now >= last {
        assert(0 <= rate * (now - last)) by (nonlinear_arith)
            requires
                rate >= 0,
                now >= last,
        ;
    } else {
        assert(rate * 0 == 0);
    }
}

/// Nothing is sent faster than the ceiling allows: by the time that a charge may
/// go out, a run has sent no more than a second's worth and what the rate allows
/// up to the nanosecond after that time.
pub proof fn law_nothing_is_sent_too_early(
    limiter: UploadLimiter,
    rate: u64,
    charges: Seq<Charge>,
)
    requires
        rate > 0,
        charges.len() > 0,
        in_order(charges),
        limiter.tokens <= rate,
        bytes_charged(charges) - limiter.tokens <= 0x1_0000_0000_0000_0000_0000_0000,
        bytes_charged(charges) <= 0x1_0000_0000_0000_0000_0000_0000,
        delay_for(after_charges(limiter, rate as int, charges).tokens as int, rate as int)
            < u64::MAX,
    ensures
        ({
            let wait = delay_for(
                after_charges(limiter, rate as int, charges).tokens as int,
                rate as int,
            );
            let sent = charges.last().at + wait;
            &&& bytes_charged(charges) * 1_000_000_000 < rate * 1_000_000_000 + rate * (sent
                - charges[0].at + 1)
            &&& after_charges(limiter, rate as int, charges).tokens >= 0 ==> wait == 0
                && bytes_charged(charges) * 1_000_000_000 <= rate * 1_000_000_000 + rate * (
            charges.last().at - charges[0].at)
        }),
{
    lemma_run(limiter, rate, charges);
    let tokens = after_charges(limiter, rate as int, charges).tokens as int;
    law_wait_makes_good(tokens, rate as int);
    let wait = delay_for(tokens, rate as int);
    let passed = charges.last().at - charges[0].at;
    assert(rate * (passed + wait + 1) == rate * passed + rate * (wait + 1)) by (nonlinear_arith);
    assert(rate * (wait + 1) > 0) by (nonlinear_arith)
        requires
            rate > 0,
            wait >= 0,
    ;
}

/// The contribution of a peer is what it gave beyond what it took and a mebibyte
/// for each failure, and nothing where there is no such surplus.
pub proof fn law_contribution_is_the_surplus(reputation: PeerReputation, surplus: int)
    requires
        reputation.verified_from == reputation.uploaded_to + 1048576 * reputation.failures
            + surplus,
    ensures
        surplus >= 0 ==> contribution_of(reputation) == surplus,
        surplus < 0 ==> contribution_of(reputation) == 0,
{
}

/// The hours since a peer was first seen, the one that has begun counted too,
/// each allow it the bootstrap bytes; beyond these it has credit only for what
/// it earned.
pub proof fn law_credit_is_bootstrap_and_earnings(
    transfer: TransferPolicy,
    reputation: PeerReputation,
    now: u64,
    earned: u64,
    hours: int,
)
    requires
        reputation.first_seen <= now,
        hours >= 1,
        (hours - 1) * 3_600_000_000_000 <= now - reputation.first_seen < hours * 3_600_000_000_000,
    ensures
        reputation.uploaded_to >= transfer.reciprocal_bootstrap_bytes * hours + earned
            ==> !has_credit(transfer, reputation, now as int, Credit::Earned(earned)),
        reputation.uploaded_to < transfer.reciprocal_bootstrap_bytes * hours + earned
            && reputation.uploaded_to < u64::MAX ==> has_credit(
            transfer,
            reputation,
            now as int,
            Credit::Earned(earned),
        ),
        has_credit(transfer, reputation, now as int, Credit::Unlimited),
{
    let passed = now - reputation.first_seen;
    assert(passed / 1_000_000_000 / 3600 + 1 == hours) by (nonlinear_arith)
        requires
            (hours - 1) * 3_600_000_000_000 <= passed < hours * 3_600_000_000_000,
            passed >= 0,
    ;
}

/// What is put down for a peer is what is found for it, and what is known of
/// every other peer and torrent stays.
pub proof fn law_reputation_is_read_back(
    entries: Seq<ReputationEntry>,
    torrent: TorrentId,
    peer: PeerKey,
    reputation: PeerReputation,
    other: TorrentId,
    someone: PeerKey,
    now: u64,
)
    ensures
        reputation_of(with_reputation(entries, torrent, peer, reputation), torrent, peer, now)
            == reputation,
        (other != torrent || someone != peer) ==> reputation_of(
            with_reputation(entries, torrent, peer, reputation),
            other,
            someone,
            now,
        ) == reputation_of(entries, other, someone, now),
{
    let after = with_reputation(entries, torrent, peer, reputation);
    lemma_entry_at(entries, torrent, peer, 0);
    lemma_entry_at(after, torrent, peer, 0);
    lemma_entry_at(entries, other, someone, 0);
    lemma_entry_at(after, other, someone, 0);
    let at = entry_at(entries, torrent, peer, 0);
    let now_at = entry_at(after, torrent, peer, 0);
    assert(belongs(after[at], torrent, peer));
    if now_at < at {
        assert(after[now_at] == entries[now_at]);
    }
    assert(now_at == at);
    if other != torrent || someone != peer {
        let was = entry_at(entries, other, someone, 0);
        let is = entry_at(after, other, someone, 0);
        if is < after.len() {
            assert(is != at);
            assert(belongs(entries[is], other, someone));
        }
        if was < entries.len() {
            assert(was != at);
            assert(belongs(after[was], other, someone));
        }
    }
}

/// Nobody is known of whom nothing was put down: a peer without an entry has a
/// fresh reputation, with nothing given and nothing taken.
pub proof fn law_unknown_peer_is_fresh(
    entries: Seq<ReputationEntry>,
    torrent: TorrentId,
    peer: PeerKey,
    now: u64,
)
    requires
        forall|i: int|
            0 <= i < entries.len() ==> (#[trigger] entries[i]).torrent_id != torrent
                || entries[i].peer != peer,
    ensures
        reputation_of(entries, torrent, peer, now) == (PeerReputation {
            verified_from: 0,
            uploaded_to: 0,
            failures: 0,
            recent_verified: 0,
            verified_rate: 0,
            first_seen: now,
            last_seen: now,
        }),
{
    lemma_entry_at(entries, torrent, peer, 0);
    let at = entry_at(entries, torrent, peer, 0);
    if at < entries.len() {
        assert(belongs(entries[at], torrent, peer));
    }
}

/// A session is found where it stands.
proof fn lemma_session_at(sessions: Seq<UploadSession>, from: int, at: int)
    requires
        unique_sessions(sessions),
        0 <= from <= at < sessions.len(),
    ensures
        session_at(sessions, sessions[at].session, from) == at,
    decreases at - from,
{
    if from < at {
        assert(sessions[from].session != sessions[at].session);
        lemma_session_at(sessions, from + 1, at);
    }
}

/// The sessions of a torrent that have a slot.
pub open spec fn holders(sessions: Seq<UploadSession>, torrent: TorrentId) -> Seq<UploadSession> {
    sessions.filter(
        |session: UploadSession|
            session.torrent_id == torrent && session.interested && session.unchoked,
    )
}

proof fn lemma_holders(sessions: Seq<UploadSession>, torrent: TorrentId, n: int)
    requires
        0 <= n <= sessions.len(),
    ensures
        occupied_below(sessions, torrent, n) == holders(sessions.take(n), torrent).len(),
    decreases n,
{
    reveal(Seq::filter);
    if n > 0 {
        lemma_holders(sessions, torrent, n - 1);
        assert(sessions.take(n).drop_last() =~= sessions.take(n - 1));
        assert(sessions.take(n).last() == sessions[n - 1]);
    } else {
        assert(sessions.take(0).len() == 0);
    }
}

/// A session that becomes interested gets a slot at once if its peer has credit,
/// where it needs any, and a slot is free: any slot for one that gave something
/// and has something to give, or that need not; an optimistic one else. One that
/// had a slot keeps it on the same terms, and one that loses interest loses it.
/// Nobody else is touched.
pub proof fn law_interest_gets_a_free_slot(
    sessions: Seq<UploadSession>,
    entries: Seq<ReputationEntry>,
    transfer: TransferPolicy,
    at: int,
    interested: bool,
    now: u64,
    credit: Credit,
)
    requires
        unique_sessions(sessions),
        0 <= at < sessions.len(),
        transfer.upload_slots + transfer.optimistic_upload_slots <= usize::MAX,
    ensures
        ({
            let session = sessions[at];
            let (after, unchoked) = interest_changed(
                sessions,
                entries,
                transfer,
                session.session,
                interested,
                now,
                credit,
            );
            let peer = reputation_of(entries, session.torrent_id, session.peer, now);
            let earned = !session.reciprocal || (session.interesting && (contribution_of(peer) > 0
                || peer.verified_rate > 0));
            let taken = holders(sessions, session.torrent_id).len();
            &&& after.len() == sessions.len()
            &&& after[at] == (UploadSession { interested, unchoked, ..session })
            &&& forall|k: int|
                0 <= k < sessions.len() && k != at ==> #[trigger] after[k] == sessions[k]
            &&& unchoked <==> {
                &&& interested
                &&& session.reciprocal ==> has_credit(transfer, peer, now as int, credit)
                &&& session.unchoked || taken < transfer.optimistic_upload_slots || (earned && taken
                    < transfer.upload_slots + transfer.optimistic_upload_slots)
            }
        }),
{
    lemma_session_at(sessions, 0, at);
    lemma_holders(sessions, sessions[at].torrent_id, sessions.len() as int);
    assert(sessions.take(sessions.len() as int) =~= sessions);
}

/// A block is given to a session that has a slot and, where it needs any, credit.
/// One that has none loses its slot, and nobody else is touched.
pub proof fn law_block_needs_slot_and_credit(
    sessions: Seq<UploadSession>,
    entries: Seq<ReputationEntry>,
    transfer: TransferPolicy,
    at: int,
    now: u64,
    credit: Credit,
)
    requires
        unique_sessions(sessions),
        0 <= at < sessions.len(),
    ensures
        ({
            let session = sessions[at];
            let (after, allowed) = block_asked(
                sessions,
                entries,
                transfer,
                session.session,
                now,
                credit,
            );
            let peer = reputation_of(entries, session.torrent_id, session.peer, now);
            &&& after.len() == sessions.len()
            &&& after[at] == (UploadSession { unchoked: allowed, ..session })
            &&& forall|k: int|
                0 <= k < sessions.len() && k != at ==> #[trigger] after[k] == sessions[k]
            &&& allowed <==> session.unchoked && (session.reciprocal ==> has_credit(
                transfer,
                peer,
                now as int,
                credit,
            ))
        }),
{
    lemma_session_at(sessions, 0, at);
}

/// Nobody who has no session is given anything.
pub proof fn law_unknown_session_gets_nothing(
    sessions: Seq<UploadSession>,
    entries: Seq<ReputationEntry>,
    transfer: TransferPolicy,
    session: u64,
    interested: bool,
    now: u64,
    credit: Credit,
)
    requires
        forall|k: int| 0 <= k < sessions.len() ==> (#[trigger] sessions[k]).session != session,
    ensures
        interest_changed(sessions, entries, transfer, session, interested, now, credit) == (
            sessions,
            false,
        ),
        block_asked(sessions, entries, transfer, session, now, credit) == (sessions, false),
{
    lemma_no_session(sessions, session, 0);
}

proof fn lemma_no_session(sessions: Seq<UploadSession>, session: u64, from: int)
    requires
        0 <= from <= sessions.len(),
        forall|k: int| 0 <= k < sessions.len() ==> (#[trigger] sessions[k]).session != session,
    ensures
        session_at(sessions, session, from) == sessions.len(),
    decreases sessions.len() - from,
{
    if from < sessions.len() {
        assert(sessions[from].session != session);
        lemma_no_session(sessions, session, from + 1);
    }
}

} // verus!
