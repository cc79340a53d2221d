//! The course of a torrent's actor: what is tried, what is tried again and
//! after how long, and when it is done.

use crate::bitfield::{all_complete, has_all};
use crate::discovery::AnnounceEvent;
use crate::error::{ActorError, Fault};
use crate::hash::{Sha1Hash, Sha256Hash};
use crate::magnet::{law_accepted_link_has_topic, magnet_of, Magnet, MagnetFailure, MagnetModel};
use crate::metainfo::{metainfo_of, tiers_view, Metainfo};
use crate::info_dict::{document_limits, limits_for};
use crate::location::url_of;
use crate::num::{min_of, min_u64, saturating_mul_u64};
use crate::path::texts;
use crate::wording::{failure_text, magnet_text};
use vstd::prelude::*;

verus! {

/// How long to wait before peers are looked for again, at first and at most.
pub const SWARM_RETRY_MIN_NANOS: u64 = 1_000_000_000;

pub const SWARM_RETRY_MAX_NANOS: u64 = 30_000_000_000;

/// Whether other peers may do better.
pub open spec fn is_peer_failure(fault: Fault) -> bool {
    fault is NoTracker || fault is NoPeers || fault is Peer
}

pub fn retryable_peer_failure(error: &ActorError) -> (result: bool)
    ensures
        result == is_peer_failure(error@),
{
    match error {
        ActorError::NoTracker | ActorError::NoPeers | ActorError::Peer(_) => true,
        _ => false,
    }
}

/// Whether other peers may do better at delivering metadata.
pub open spec fn is_metadata_failure(fault: Fault) -> bool {
    fault is Metadata || fault is Metainfo || is_peer_failure(fault)
}

pub fn retryable_metadata_failure(error: &ActorError) -> (result: bool)
    ensures
        result == is_metadata_failure(error@),
{
    match error {
        ActorError::Metadata(_)
        | ActorError::Metainfo(_)
        | ActorError::NoTracker
        | ActorError::NoPeers
        | ActorError::Peer(_) => true,
        _ => false,
    }
}

/// Twice a delay, within the bound.
pub open spec fn doubled(delay: int) -> int {
    min_of(delay * 2, SWARM_RETRY_MAX_NANOS as int)
}

fn double(delay: u64) -> (result: u64)
    ensures
        result == doubled(delay as int),
{
    min_u64(saturating_mul_u64(delay, 2), SWARM_RETRY_MAX_NANOS)
}

/// What follows a round of peers.
#[derive(Debug)]
pub enum RoundDecision {
    Done,
    Fail(ActorError),
    /// Try again after so many nanoseconds.
    Retry { delay: u64 },
}

/// What follows a round of peers, by its values.
pub enum Decision {
    Done,
    Fail(Fault),
    Retry(int),
}

impl RoundDecision {
    pub open spec fn view(&self) -> Decision {
        match *self {
            RoundDecision::Done => Decision::Done,
            RoundDecision::Fail(error) => Decision::Fail(error@),
            RoundDecision::Retry { delay } => Decision::Retry(delay as int),
        }
    }
}

/// Rounds of peers, until the torrent is complete.
#[derive(Clone, Copy, Debug, Eq, PartialEq, Structural)]
pub struct RetryState {
    pub delay: u64,
    /// Whether no round has been tried yet.
    pub first: bool,
}

pub open spec fn fault_of(failure: Option<ActorError>) -> Option<Fault> {
    match failure {
        Some(error) => Some(error@),
        None => None,
    }
}

/// What follows a download round. A round that brought the torrent forward
/// starts the delays over.
pub open spec fn download_decision(
    delay: int,
    failure: Option<Fault>,
    complete: bool,
    progressed: bool,
) -> Decision {
    match failure {
        None => Decision::Done,
        Some(fault) => if !is_peer_failure(fault) {
            Decision::Fail(fault)
        } else if complete {
            Decision::Done
        } else if progressed {
            Decision::Retry(SWARM_RETRY_MIN_NANOS as int)
        } else {
            Decision::Retry(doubled(delay))
        },
    }
}

/// What follows a metadata round.
pub open spec fn metadata_decision(delay: int, failure: Option<Fault>) -> Decision {
    match failure {
        None => Decision::Done,
        Some(fault) => if is_metadata_failure(fault) {
            Decision::Retry(delay)
        } else {
            Decision::Fail(fault)
        },
    }
}

impl RetryState {
    pub fn new() -> (state: Self)
        ensures
            state == (RetryState { delay: SWARM_RETRY_MIN_NANOS, first: true }),
    {
        Self { delay: SWARM_RETRY_MIN_NANOS, first: true }
    }

    /// What the next round tells the trackers: the first says that the
    /// torrent started.
    pub fn announce_event(&self) -> (event: AnnounceEvent)
        ensures
            event == (if self.first {
                AnnounceEvent::Started
            } else {
                AnnounceEvent::Regular
            }),
    {
        if self.first {
            AnnounceEvent::Started
        } else {
            AnnounceEvent::Regular
        }
    }

    /// A download round ended.
    pub fn download_round_ended(
        &mut self,
        failure: Option<ActorError>,
        completed: &[u8],
        pieces: usize,
        downloaded_before: u64,
        downloaded: u64,
    ) -> (decision: RoundDecision)
        ensures
            decision@ == download_decision(
                old(self).delay as int,
                fault_of(failure),
                has_all(completed@, pieces as int),
                downloaded > downloaded_before,
            ),
            match decision {
                RoundDecision::Retry { delay } => *final(self) == (RetryState {
                    delay,
                    first: false,
                }),
                _ => *final(self) == *old(self),
            },
    {
        let error = match failure {
            None => {
                return RoundDecision::Done;
            },
            Some(error) => error,
        };
        if !retryable_peer_failure(&error) {
            return RoundDecision::Fail(error);
        }
        if all_complete(completed, pieces) {
            return RoundDecision::Done;
        }
        self.first = false;
        self.delay = if downloaded > downloaded_before {
            SWARM_RETRY_MIN_NANOS
        } else {
            double(self.delay)
        };
        RoundDecision::Retry { delay: self.delay }
    }

    /// A metadata round ended.
    pub fn metadata_round_ended(&mut self, failure: Option<ActorError>) -> (decision: RoundDecision)
        ensures
            decision@ == metadata_decision(old(self).delay as int, fault_of(failure)),
            match decision {
                RoundDecision::Retry { .. } => *final(self) == (RetryState {
                    delay: doubled(old(self).delay as int) as u64,
                    first: false,
                }),
                _ => *final(self) == *old(self),
            },
    {
        let error = match failure {
            None => {
                return RoundDecision::Done;
            },
            Some(error) => error,
        };
        if !retryable_metadata_failure(&error) {
            return RoundDecision::Fail(error);
        }
        let delay: u64 = self.delay;
        self.first = false;
        self.delay = double(delay);
        RoundDecision::Retry { delay }
    }
}

/// The delay before the round that follows `rounds` fruitless metadata rounds.
pub open spec fn delay_after(rounds: nat) -> int
    decreases rounds,
{
    if rounds == 0 {
        SWARM_RETRY_MIN_NANOS as int
    } else {
        doubled(delay_after((rounds - 1) as nat))
    }
}

/// Delays never shrink while nothing is gained, and reach their bound.
pub proof fn law_delays_grow_to_bound(rounds: nat)
    ensures
        SWARM_RETRY_MIN_NANOS <= delay_after(rounds) <= delay_after(rounds + 1)
            <= SWARM_RETRY_MAX_NANOS,
        rounds >= 5 ==> delay_after(rounds) == SWARM_RETRY_MAX_NANOS,
    decreases rounds,
{
    if rounds > 0 {
        law_delays_grow_to_bound((rounds - 1) as nat);
    }
    reveal_with_fuel(delay_after, 6);
}

/// A cancelled actor is never kept going by a retry.
pub proof fn law_cancelled_actor_ends(delay: int, complete: bool, progressed: bool)
    ensures
        download_decision(delay, Some(Fault::Cancelled), complete, progressed) == Decision::Fail(
            Fault::Cancelled,
        ),
        metadata_decision(delay, Some(Fault::Cancelled)) == Decision::Fail(Fault::Cancelled),
{
}

/// What is left to do once peers have been tried.
#[derive(Debug)]
pub enum DownloadStage {
    /// Everything is there.
    Finish,
    /// What is missing is to come from web seeds.
    WebSeeds,
    Fail(ActorError),
}

/// Whether peers are tried again and again, or only once because there are
/// web seeds to fall back on.
pub fn peers_are_retried(metainfo: &Metainfo) -> (result: bool)
    ensures
        result == (metainfo@.web_seeds.len() == 0),
{
    metainfo.web_seeds.len() == 0
}

/// What is left to do once peers have been tried. Where web seeds exist, it
/// does not matter why the peers failed.
pub fn after_peers(
    metainfo: &Metainfo,
    completed: &[u8],
    pieces: usize,
    failure: Option<ActorError>,
) -> (stage: DownloadStage)
    ensures
        ({
            let complete = has_all(completed@, pieces as int);
            match stage {
                DownloadStage::Finish => complete,
                DownloadStage::Fail(error) => !complete && metainfo@.web_seeds.len() == 0
                    && failure == Some(error),
                DownloadStage::WebSeeds => !complete && (metainfo@.web_seeds.len() > 0
                    || failure is None),
            }
        }),
{
    if all_complete(completed, pieces) {
        return DownloadStage::Finish;
    }
    if metainfo.web_seeds.len() == 0 {
        if let Some(error) = failure {
            return DownloadStage::Fail(error);
        }
    }
    DownloadStage::WebSeeds
}

/// A link that metadata is to be fetched for.
#[derive(Debug)]
pub struct LinkTarget {
    pub magnet: Magnet,
    /// The hash that the torrent goes by between peers.
    pub info_hash: Sha1Hash,
    /// The link's trackers, each in a tier of its own.
    pub trackers: Vec<Vec<String>>,
}

/// The hash that a link's torrent goes by between peers: the v1 hash, or else
/// the v2 hash cut short.
pub open spec fn link_hash(magnet: MagnetModel) -> Option<Seq<u8>> {
    match (magnet.v1_info_hash, magnet.v2_info_hash) {
        (Some(hash), _) => Some(hash),
        (None, Some(hash)) => Some(hash.take(20)),
        (None, None) => None,
    }
}

/// Each text in a list of its own.
pub open spec fn singletons(trackers: Seq<Seq<char>>) -> Seq<Seq<Seq<char>>> {
    Seq::new(trackers.len(), |i: int| seq![trackers[i]])
}

/// What is wrong with a record's link, if anything.
pub open spec fn link_fault(uri: Option<Seq<char>>) -> Option<Fault> {
    match uri {
        None => Some(Fault::Magnet("record has no URI"@)),
        Some(text) => match magnet_of(text) {
            Err(failure) => Some(Fault::Magnet(magnet_text(failure))),
            Ok(magnet) => if link_hash(magnet) is None {
                Some(Fault::V2PeerWire)
            } else {
                None
            },
        },
    }
}

fn shortened(hash: &Sha256Hash) -> (short: Sha1Hash)
    ensures
        short@ == hash@.take(20),
{
    let bytes = hash.as_bytes();
    let mut head: [u8; 20] = [0; 20];
    let mut i: usize = 0;
    while i < 20
        invariant
            i <= 20,
            bytes@ == hash@,
            forall|k: int| 0 <= k < i ==> head@[k] == bytes@[k],
        decreases 20 - i,
    {
        head[i] = bytes[i];
        i += 1;
    }
    let short = Sha1Hash::from_bytes(head);
    assert(short@ =~= hash@.take(20));
    short
}

fn own_tiers(trackers: &Vec<String>) -> (tiers: Vec<Vec<String>>)
    ensures
        tiers_view(tiers@) == singletons(texts(trackers@)),
{
    let mut tiers: Vec<Vec<String>> = Vec::new();
    let mut i: usize = 0;
    while i < trackers.len()
        invariant
            i <= trackers@.len(),
            tiers@.len() == i,
            forall|k: int| 0 <= k < i ==> texts(#[trigger] tiers@[k]@) == seq![trackers@[k]@],
        decreases trackers@.len() - i,
    {
        let tier: Vec<String> = vec![trackers[i].clone()];
        assert(texts(tier@) =~= seq![trackers@[i as int]@]);
        tiers.push(tier);
        i += 1;
    }
    assert(tiers_view(tiers@) =~= singletons(texts(trackers@)));
    tiers
}

/// What is looked for on behalf of a link.
pub fn link_target(magnet: Magnet) -> (result: Result<LinkTarget, ActorError>)
    ensures
        match result {
            Ok(target) => {
                &&& target.magnet == magnet
                &&& link_hash(magnet@) == Some(target.info_hash@)
                &&& tiers_view(target.trackers@) == singletons(magnet@.trackers)
            },
            Err(error) => link_hash(magnet@) is None && error@ == Fault::V2PeerWire,
        },
{
    let info_hash = match (magnet.v1_info_hash, magnet.v2_info_hash) {
        (Some(hash), _) => hash,
        (None, Some(hash)) => shortened(&hash),
        (None, None) => {
            return Err(ActorError::V2PeerWire);
        },
    };
    let trackers = own_tiers(&magnet.trackers);
    Ok(LinkTarget { magnet, info_hash, trackers })
}

/// Reads the link of a record that has no metadata yet.
pub fn read_link(uri: Option<&String>) -> (result: Result<LinkTarget, ActorError>)
    ensures
        ({
            let text = match uri {
                Some(text) => Some(text@),
                None => None,
            };
            match result {
                Ok(target) => {
                    &&& link_fault(text) is None
                    &&& magnet_of(text->0) == Ok::<MagnetModel, MagnetFailure>(target.magnet@)
                    &&& link_hash(target.magnet@) == Some(target.info_hash@)
                    &&& tiers_view(target.trackers@) == singletons(target.magnet@.trackers)
                },
                Err(error) => link_fault(text) == Some(error@),
            }
        }),
{
    match uri {
        None => Err(ActorError::magnet("record has no URI")),
        Some(text) => match Magnet::parse(text.as_str()) {
            Ok(magnet) => link_target(magnet),
            Err(error) => Err(ActorError::Magnet(error.message())),
        },
    }
}

/// How long a stored metainfo document may be.
pub const STORED_METAINFO_BYTES: usize = 67108864;

/// Reads the metainfo document of a record.
pub fn read_stored_metainfo(raw: &[u8]) -> (result: Result<Metainfo, ActorError>)
    ensures
        match (result, metainfo_of(raw@, limits_for(STORED_METAINFO_BYTES), true)) {
            (Ok(metainfo), Ok(model)) => metainfo@ == model && metainfo.wf()
                && metainfo.paths_wf(),
            (Err(error), Err(failure)) => error@ == Fault::Metainfo(failure_text(failure)),
            _ => false,
        },
{
    match Metainfo::parse(raw, document_limits(STORED_METAINFO_BYTES)) {
        Ok(metainfo) => Ok(metainfo),
        Err(error) => Err(ActorError::Metainfo(error.message())),
    }
}

/// Every link that is accepted can be looked for.
pub proof fn law_accepted_link_has_target(text: Seq<char>)
    requires
        magnet_of(text) is Ok,
    ensures
        link_fault(Some(text)) is None,
{
    let url = url_of(text)->Ok_0;
    law_accepted_link_has_topic(url.scheme, url.pairs);
}

/// A round that fails for want of peers is tried again: after a second if it
/// brought the torrent forward, else after twice the last delay, up to half a
/// minute. Any other failure ends the torrent, and a complete torrent needs no
/// further round.
pub proof fn law_fruitless_rounds_double_the_delay(
    delay: u64,
    fault: Fault,
    complete: bool,
    progressed: bool,
)
    ensures
        ({
            let decision = download_decision(delay as int, Some(fault), complete, progressed);
            let wants_peers = fault is NoTracker || fault is NoPeers || fault is Peer;
            &&& !wants_peers ==> decision == Decision::Fail(fault)
            &&& wants_peers && complete ==> decision == Decision::Done
            &&& wants_peers && !complete && progressed ==> decision == Decision::Retry(
                1_000_000_000,
            )
            &&& wants_peers && !complete && !progressed && 2 * delay <= 30_000_000_000 ==> decision
                == Decision::Retry(2 * delay)
            &&& wants_peers && !complete && !progressed && 2 * delay > 30_000_000_000 ==> decision
                == Decision::Retry(30_000_000_000)
        }),
        download_decision(delay as int, None, complete, progressed) == Decision::Done,
{
}

/// A link is followed under its v1 hash, and one without under the first twenty
/// bytes of its v2 hash.
pub proof fn law_link_hash_is_a_prefix(magnet: MagnetModel)
    requires
        magnet.v2_info_hash is Some ==> magnet.v2_info_hash->0.len() == 32,
    ensures
        magnet.v1_info_hash is Some ==> link_hash(magnet) == magnet.v1_info_hash,
        magnet.v1_info_hash is None && magnet.v2_info_hash is Some ==> link_hash(magnet) is Some
            && link_hash(magnet)->0.len() == 20 && forall|i: int|
            0 <= i < 20 ==> #[trigger] link_hash(magnet)->0[i] == magnet.v2_info_hash->0[i],
        magnet.v1_info_hash is None && magnet.v2_info_hash is None ==> link_hash(magnet) is None,
{
}

} // verus!
