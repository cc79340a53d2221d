//! What is kept in memory of a torrent that peers may download, and which
//! torrents those are.

use crate::choke::TorrentState;
use crate::error::{ActorError, Fault};
use crate::hash::Sha1Hash;
use crate::info_dict::{document_limits, limits_for, raw_info_dictionary, raw_info_of};
use crate::layout::{piece_count, piece_count_of};
use crate::metainfo::{metainfo_of, sha1_views, MetaModel, Metainfo};
use crate::record::{is_active, is_active_state};
use crate::wording::failure_text;
use vstd::prelude::*;

verus! {

/// What serving a torrent takes.
#[derive(Debug)]
pub struct IncomingContent {
    pub metainfo: Metainfo,
    pub pieces: usize,
    /// The bytes of the info dictionary.
    pub info: Vec<u8>,
}

/// Content by its values.
pub struct ContentModel {
    pub metainfo: MetaModel,
    pub pieces: int,
    pub info: Seq<u8>,
}

impl IncomingContent {
    pub open spec fn view(&self) -> ContentModel {
        ContentModel {
            metainfo: self.metainfo@,
            pieces: self.pieces as int,
            info: self.info@,
        }
    }
}

pub open spec fn not_active() -> Fault {
    Fault::Peer("incoming info hash is not active"@)
}

/// Whether a torrent that a peer asks for may be served: it has to be on
/// record, and active.
pub fn check_active(state: Option<TorrentState>) -> (result: Result<(), ActorError>)
    ensures
        match result {
            Ok(_) => state is Some && is_active_state(state->0),
            Err(error) => !(state is Some && is_active_state(state->0)) && error@ == not_active(),
        },
{
    match state {
        Some(state) => if is_active(state) {
            Ok(())
        } else {
            Err(ActorError::peer("incoming info hash is not active"))
        },
        None => Err(ActorError::peer("incoming info hash is not active")),
    }
}

/// What serving a torrent takes, by the stored metainfo.
pub open spec fn served_content(raw: Option<Seq<u8>>, limit: usize) -> Result<ContentModel, Fault> {
    match raw {
        None => Err(not_active()),
        Some(raw) => if raw.len() == 0 {
            Err(not_active())
        } else {
            match metainfo_of(raw, limits_for(limit), true) {
                Err(failure) => Err(Fault::Metainfo(failure_text(failure))),
                Ok(metainfo) => match piece_count_of(metainfo) {
                    Err(fault) => Err(fault),
                    Ok(pieces) => match raw_info_of(raw, limit) {
                        Err(fault) => Err(fault),
                        Ok(info) => Ok(ContentModel { metainfo, pieces, info }),
                    },
                },
            }
        },
    }
}

/// Prepares a torrent to be served.
pub fn prepare_content(raw: Option<&[u8]>, limit: usize) -> (result: Result<
    IncomingContent,
    ActorError,
>)
    ensures
        ({
            let bytes = match raw {
                Some(raw) => Some(raw@),
                None => None,
            };
            match (result, served_content(bytes, limit)) {
                (Ok(content), Ok(model)) => content@ == model && content.metainfo.wf(),
                (Err(error), Err(fault)) => error@ == fault,
                _ => false,
            }
        }),
{
    let raw = match raw {
        Some(raw) => raw,
        None => {
            return Err(ActorError::peer("incoming info hash is not active"));
        },
    };
    assert(raw@.len() == raw.len());
    if raw.len() == 0 {
        return Err(ActorError::peer("incoming info hash is not active"));
    }
    let metainfo = match Metainfo::parse(raw, document_limits(limit)) {
        Ok(metainfo) => metainfo,
        Err(error) => {
            return Err(ActorError::Metainfo(error.message()));
        },
    };
    let pieces: usize = match piece_count(&metainfo) {
        Ok(pieces) => pieces,
        Err(error) => {
            return Err(error);
        },
    };
    let info = match raw_info_dictionary(raw, limit) {
        Ok(info) => info,
        Err(error) => {
            return Err(error);
        },
    };
    Ok(IncomingContent { metainfo, pieces, info })
}

/// What decides whether a torrent is made known.
#[derive(Clone, Copy, Debug)]
pub struct TorrentSummary {
    pub state: TorrentState,
    /// The hash that the torrent goes by between peers, once it is known.
    pub wire_hash: Option<Sha1Hash>,
    /// Whether the torrent is private, as far as its content can be read.
    pub private: Option<bool>,
}

/// The hashes of the first torrents that peers may ask for. Those that are to
/// be announced on the local network have to be readable and not private too.
pub open spec fn known_hashes(summaries: Seq<TorrentSummary>, announced: bool) -> Seq<Seq<u8>>
    decreases summaries.len(),
{
    if summaries.len() == 0 {
        Seq::empty()
    } else {
        let before = known_hashes(summaries.drop_last(), announced);
        let last = summaries.last();
        if is_active_state(last.state) && last.wire_hash is Some && (announced ==> last.private
            == Some(false)) {
            before.push(last.wire_hash->0@)
        } else {
            before
        }
    }
}

fn collect_hashes(summaries: &Vec<TorrentSummary>, announced: bool) -> (hashes: Vec<Sha1Hash>)
    ensures
        sha1_views(hashes@) == known_hashes(summaries@, announced),
{
    let mut hashes: Vec<Sha1Hash> = Vec::new();
    let mut i: usize = 0;
    assert(summaries@.take(0) =~= Seq::empty());
    assert(sha1_views(hashes@) =~= Seq::empty());
    while i < summaries.len()
        invariant
            i <= summaries@.len(),
            sha1_views(hashes@) == known_hashes(summaries@.take(i as int), announced),
        decreases summaries@.len() - i,
    {
        let ghost before = sha1_views(hashes@);
        proof {
            assert(summaries@.take(i + 1).drop_last() =~= summaries@.take(i as int));
            assert(summaries@.take(i + 1).last() == summaries@[i as int]);
        }
        let summary = summaries[i];
        let allowed: bool = !announced || match summary.private {
            Some(private) => !private,
            None => false,
        };
        if let Some(hash) = summary.wire_hash {
            if is_active(summary.state) && allowed {
                hashes.push(hash);
                assert(sha1_views(hashes@) =~= before.push(hash@));
            }
        }
        i += 1;
    }
    assert(summaries@.take(summaries@.len() as int) =~= summaries@);
    hashes
}

/// The hashes that incoming peers may ask for.
pub fn incoming_wire_hashes(summaries: &Vec<TorrentSummary>) -> (hashes: Vec<Sha1Hash>)
    ensures
        sha1_views(hashes@) == known_hashes(summaries@, false),
{
    collect_hashes(summaries, false)
}

/// The hashes that are announced on the local network. Private torrents are not.
pub fn active_lsd_hashes(summaries: &Vec<TorrentSummary>) -> (hashes: Vec<Sha1Hash>)
    ensures
        sha1_views(hashes@) == known_hashes(summaries@, true),
{
    collect_hashes(summaries, true)
}

/// Every hash that is announced on the local network belongs to a torrent that
/// is active and not private.
pub proof fn law_private_torrents_stay_private(summaries: Seq<TorrentSummary>, i: int) -> (at: int)
    requires
        0 <= i < known_hashes(summaries, true).len(),
    ensures
        0 <= at < summaries.len(),
        is_active_state(summaries[at].state),
        summaries[at].private == Some(false),
        summaries[at].wire_hash is Some,
        summaries[at].wire_hash->0@ == known_hashes(summaries, true)[i],
    decreases summaries.len(),
{
    let before = known_hashes(summaries.drop_last(), true);
    if i < before.len() {
        law_private_torrents_stay_private(summaries.drop_last(), i)
    } else {
        summaries.len() - 1
    }
}

/// The hashes that peers may ask for are those of the torrents that download or
/// seed, in order; announced are of those only such as are known not to be
/// private.
pub proof fn law_known_hashes_are_of_active_torrents(summaries: Seq<TorrentSummary>)
    ensures
        known_hashes(summaries, false) == summaries.filter(
            |summary: TorrentSummary|
                summary.wire_hash is Some && (summary.state is Downloading
                    || summary.state is Seeding),
        ).map_values(|summary: TorrentSummary| summary.wire_hash->0@),
        known_hashes(summaries, true) == summaries.filter(
            |summary: TorrentSummary|
                summary.wire_hash is Some && (summary.state is Downloading
                    || summary.state is Seeding) && summary.private is Some
                    && !summary.private->0,
        ).map_values(|summary: TorrentSummary| summary.wire_hash->0@),
    decreases summaries.len(),
{
    let hash = |summary: TorrentSummary| summary.wire_hash->0@;
    let known = |summary: TorrentSummary|
        summary.wire_hash is Some && (summary.state is Downloading || summary.state is Seeding);
    let announced = |summary: TorrentSummary|
        summary.wire_hash is Some && (summary.state is Downloading || summary.state is Seeding)
            && summary.private is Some && !summary.private->0;
    reveal(Seq::filter);
    if summaries.len() > 0 {
        let front = summaries.drop_last();
        let last = summaries.last();
        law_known_hashes_are_of_active_torrents(front);
        if known(last) {
            assert(summaries.filter(known).map_values(hash) =~= front.filter(known).map_values(
                hash,
            ).push(hash(last)));
        }
        if announced(last) {
            assert(summaries.filter(announced).map_values(hash) =~= front.filter(
                announced,
            ).map_values(hash).push(hash(last)));
        }
    } else {
        assert(summaries.filter(known).map_values(hash).len() == 0);
        assert(summaries.filter(announced).map_values(hash).len() == 0);
    }
}

} // verus!
