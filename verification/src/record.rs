//! The stored record of a torrent: its state, and how far it has come.

use crate::bitfield::{
    all_complete, empty_bitfield, has_all, has_bit, lemma_byte_or, lemma_byte_zero, set_bit,
    with_bit,
};
use crate::choke::TorrentState;
use crate::error::{ActorError, Fault, TorrentId};
use crate::layout::{completed_below, content_size, piece_content_length};
use crate::metainfo::{MetaModel, Metainfo};
use crate::num::div_ceil_of;
use crate::verify::{checks_of, passes, verify_piece};
use vstd::prelude::*;

verus! {

/// What is told to those who watch a torrent.
#[derive(Debug)]
pub struct EngineEvent {
    pub torrent_id: TorrentId,
    pub state: TorrentState,
    pub detail: Option<String>,
}

impl Clone for EngineEvent {
    fn clone(&self) -> (copy: Self)
        ensures
            copy.torrent_id == self.torrent_id,
            copy.state == self.state,
            match (copy.detail, self.detail) {
                (Some(copy), Some(detail)) => copy@ == detail@,
                (None, None) => true,
                _ => false,
            },
    {
        EngineEvent {
            torrent_id: self.torrent_id,
            state: self.state,
            detail: match &self.detail {
                Some(detail) => Some(detail.clone()),
                None => None,
            },
        }
    }
}

/// The stored record of a torrent.
#[derive(Debug)]
pub struct TorrentRecord {
    pub id: TorrentId,
    pub state: TorrentState,
    /// The metainfo document; empty until the metadata of a link is there.
    pub raw_metainfo: Vec<u8>,
    pub magnet_uri: Option<String>,
    /// One bit for each piece that is complete.
    pub completed_pieces: Vec<u8>,
    /// Bytes of content in the complete pieces.
    pub downloaded: u64,
    pub uploaded: u64,
    pub stop_on_complete: bool,
    pub added_at_unix_ms: u64,
}

/// Whether a torrent in this state talks to peers.
pub open spec fn is_active_state(state: TorrentState) -> bool {
    state is Downloading || state is Seeding
}

pub fn is_active(state: TorrentState) -> (result: bool)
    ensures
        result == is_active_state(state),
{
    match state {
        TorrentState::Downloading | TorrentState::Seeding => true,
        _ => false,
    }
}

/// How often a recheck stores how far it has come, in pieces.
pub const RECHECK_BATCH: usize = 64;

/// What follows when a torrent enters a state, once the state is stored.
#[derive(Debug)]
pub struct StateChange {
    /// What was kept in memory for uploads is let go first.
    pub forget_content: bool,
    pub event: EngineEvent,
}

/// A bitfield without a bit set.
pub open spec fn no_bits(bytes: int) -> Seq<u8> {
    Seq::new(bytes as nat, |i: int| 0u8)
}

/// Whether the stored bytes of a piece are right. A piece that is not there is not.
pub open spec fn stands(m: MetaModel, index: int, data: Option<Seq<u8>>) -> Result<bool, Fault> {
    match data {
        None => Ok(false),
        Some(bytes) => match checks_of(m, index, bytes.len() as int) {
            Ok(checks) => Ok(passes(checks, bytes)),
            Err(fault) => Err(fault),
        },
    }
}

pub open spec fn data_view(data: Option<&[u8]>) -> Option<Seq<u8>> {
    match data {
        Some(bytes) => Some(bytes@),
        None => None,
    }
}

/// The count of bytes once a piece is counted in.
pub open spec fn counted(m: MetaModel, downloaded: int, index: int) -> Result<int, Fault> {
    match content_size(m, index) {
        Err(fault) => Err(fault),
        Ok(size) => if downloaded + size > u64::MAX {
            Err(Fault::Arithmetic)
        } else {
            Ok(downloaded + size)
        },
    }
}

impl TorrentRecord {
    /// Whether everything but how far the torrent has come is as it was.
    pub open spec fn same_but_progress(&self, other: TorrentRecord) -> bool {
        &&& self.id == other.id
        &&& self.raw_metainfo == other.raw_metainfo
        &&& self.magnet_uri == other.magnet_uri
        &&& self.uploaded == other.uploaded
        &&& self.stop_on_complete == other.stop_on_complete
        &&& self.added_at_unix_ms == other.added_at_unix_ms
    }

    /// A record that does not fit the number of pieces starts over.
    pub fn normalize_completion(&mut self, pieces: usize)
        ensures
            final(self).same_but_progress(*old(self)),
            final(self).state == old(self).state,
            if old(self).completed_pieces@.len() == div_ceil_of(pieces as int, 8) {
                &&& final(self).completed_pieces@ == old(self).completed_pieces@
                &&& final(self).downloaded == old(self).downloaded
            } else {
                &&& final(self).completed_pieces@ == no_bits(div_ceil_of(pieces as int, 8))
                &&& final(self).downloaded == 0
            },
    {
        let empty: Vec<u8> = empty_bitfield(pieces);
        if self.completed_pieces.len() != empty.len() {
            assert(empty@ =~= no_bits(div_ceil_of(pieces as int, 8)));
            self.completed_pieces = empty;
            self.downloaded = 0;
        }
    }

    /// The torrent enters a state.
    pub fn enter_state(&mut self, state: TorrentState) -> (change: StateChange)
        ensures
            final(self).same_but_progress(*old(self)),
            final(self).completed_pieces == old(self).completed_pieces,
            final(self).downloaded == old(self).downloaded,
            final(self).state == state,
            change.forget_content == !is_active_state(state),
            change.event.torrent_id == old(self).id,
            change.event.state == state,
            change.event.detail is None,
    {
        self.state = state;
        StateChange {
            forget_content: !is_active(state),
            event: EngineEvent { torrent_id: self.id, state, detail: None },
        }
    }

    /// The torrent failed.
    pub fn enter_error(&mut self, detail: String) -> (event: EngineEvent)
        ensures
            final(self).same_but_progress(*old(self)),
            final(self).completed_pieces == old(self).completed_pieces,
            final(self).downloaded == old(self).downloaded,
            final(self).state == TorrentState::Error,
            event.torrent_id == old(self).id,
            event.state == TorrentState::Error,
            event.detail == Some(detail),
    {
        self.state = TorrentState::Error;
        EngineEvent { torrent_id: self.id, state: TorrentState::Error, detail: Some(detail) }
    }

    /// A piece is complete: its bit is set and its content is counted.
    pub fn accept_piece(&mut self, metainfo: &Metainfo, index: usize) -> (result: Result<
        (),
        ActorError,
    >)
        requires
            metainfo.wf(),
        ensures
            final(self).same_but_progress(*old(self)),
            final(self).state == old(self).state,
            final(self).completed_pieces@ == with_bit(old(self).completed_pieces@, index as int),
            match (result, counted(metainfo@, old(self).downloaded as int, index as int)) {
                (Ok(_), Ok(total)) => final(self).downloaded == total,
                (Err(error), Err(fault)) => error@ == fault && final(self).downloaded == old(
                    self,
                ).downloaded,
                _ => false,
            },
    {
        set_bit(&mut self.completed_pieces, index);
        let length: u64 = match piece_content_length(metainfo, index) {
            Ok(length) => length,
            Err(error) => {
                return Err(error);
            },
        };
        match self.downloaded.checked_add(length) {
            Some(total) => {
                self.downloaded = total;
                Ok(())
            },
            None => Err(ActorError::Arithmetic),
        }
    }

    /// A recheck begins: nothing counts as complete.
    pub fn begin_recheck(&mut self)
        ensures
            final(self).same_but_progress(*old(self)),
            final(self).state == old(self).state,
            final(self).completed_pieces@ == no_bits(old(self).completed_pieces@.len() as int),
            final(self).downloaded == 0,
    {
        let bytes: usize = self.completed_pieces.len();
        self.completed_pieces = vec![0u8; bytes];
        self.downloaded = 0;
        assert(self.completed_pieces@ =~= no_bits(bytes as int));
    }

    /// Looks at a stored piece: one that stands is counted. Tells whether the
    /// progress is to be stored now.
    pub fn recheck_piece(&mut self, metainfo: &Metainfo, index: usize, data: Option<&[u8]>) -> (result:
        Result<bool, ActorError>)
        requires
            metainfo.wf(),
        ensures
            final(self).same_but_progress(*old(self)),
            final(self).state == old(self).state,
            match stands(metainfo@, index as int, data_view(data)) {
                Err(fault) => {
                    &&& result is Err && result->Err_0@ == fault
                    &&& final(self).completed_pieces == old(self).completed_pieces
                    &&& final(self).downloaded == old(self).downloaded
                },
                Ok(false) => {
                    &&& result == Ok::<bool, ActorError>(index % 64 == 63)
                    &&& final(self).completed_pieces == old(self).completed_pieces
                    &&& final(self).downloaded == old(self).downloaded
                },
                Ok(true) => {
                    &&& final(self).completed_pieces@ == with_bit(
                        old(self).completed_pieces@,
                        index as int,
                    )
                    &&& match (result, counted(
                        metainfo@,
                        old(self).downloaded as int,
                        index as int,
                    )) {
                        (Ok(store), Ok(total)) => store == (index % 64 == 63)
                            && final(self).downloaded == total,
                        (Err(error), Err(fault)) => error@ == fault && final(self).downloaded
                            == old(self).downloaded,
                        _ => false,
                    }
                },
            },
    {
        if let Some(bytes) = data {
            match verify_piece(metainfo, index, bytes) {
                Ok(true) => {
                    if let Err(error) = self.accept_piece(metainfo, index) {
                        return Err(error);
                    }
                },
                Ok(false) => {},
                Err(error) => {
                    return Err(error);
                },
            }
        }
        Ok(index % RECHECK_BATCH == RECHECK_BATCH - 1)
    }

    /// The state of a torrent that is complete, by what is stored of it by
    /// now: whether it stops then may have been changed meanwhile.
    pub fn completion_state(&mut self, stop_on_complete: Option<bool>) -> (result: Result<
        TorrentState,
        ActorError,
    >)
        ensures
            match stop_on_complete {
                None => result is Err && result->Err_0@ == Fault::Missing && *final(self) == *old(
                    self,
                ),
                Some(stop) => {
                    &&& *final(self) == (TorrentRecord { stop_on_complete: stop, ..*old(self) })
                    &&& result == Ok::<TorrentState, ActorError>(
                        if stop {
                            TorrentState::Stopped
                        } else {
                            TorrentState::Seeding
                        },
                    )
                },
            },
    {
        match stop_on_complete {
            None => Err(ActorError::Missing),
            Some(stop) => {
                self.stop_on_complete = stop;
                Ok(
                    if stop {
                        TorrentState::Stopped
                    } else {
                        TorrentState::Seeding
                    },
                )
            },
        }
    }

    /// Whether all pieces are complete.
    pub fn is_complete(&self, pieces: usize) -> (result: bool)
        ensures
            result == has_all(self.completed_pieces@, pieces as int),
    {
        all_complete(self.completed_pieces.as_slice(), pieces)
    }
}

/// The bits after a recheck found these pieces right or wrong, one by one.
pub open spec fn checked_bits(bytes: int, verdicts: Seq<bool>) -> Seq<u8>
    decreases verdicts.len(),
{
    if verdicts.len() == 0 {
        no_bits(bytes)
    } else {
        let before = checked_bits(bytes, verdicts.drop_last());
        if verdicts.last() {
            with_bit(before, verdicts.len() - 1)
        } else {
            before
        }
    }
}

/// The count of bytes after a recheck found these pieces right or wrong.
pub open spec fn checked_bytes(m: MetaModel, verdicts: Seq<bool>) -> Result<int, Fault>
    decreases verdicts.len(),
{
    if verdicts.len() == 0 {
        Ok(0)
    } else {
        match checked_bytes(m, verdicts.drop_last()) {
            Err(fault) => Err(fault),
            Ok(total) => if verdicts.last() {
                counted(m, total, verdicts.len() - 1)
            } else {
                Ok(total)
            },
        }
    }
}

proof fn lemma_checked_bits(bytes: int, verdicts: Seq<bool>, i: int)
    requires
        bytes >= 0,
        verdicts.len() <= 8 * bytes,
        0 <= i,
    ensures
        checked_bits(bytes, verdicts).len() == bytes,
        has_bit(checked_bits(bytes, verdicts), i) == (i < verdicts.len() && verdicts[i]),
    decreases verdicts.len(),
{
    if verdicts.len() == 0 {
        if i / 8 < bytes {
            lemma_byte_zero((i % 8) as u8);
        }
    } else {
        let before = checked_bits(bytes, verdicts.drop_last());
        lemma_checked_bits(bytes, verdicts.drop_last(), i);
        let at = verdicts.len() - 1;
        if verdicts.last() && i / 8 == at / 8 {
            lemma_byte_or(before[at / 8], (at % 8) as u8, (i % 8) as u8);
        }
    }
}

proof fn lemma_completed_agree(m: MetaModel, a: Seq<u8>, b: Seq<u8>, n: int)
    requires
        forall|i: int| 0 <= i < n ==> has_bit(a, i) == #[trigger] has_bit(b, i),
    ensures
        completed_below(m, a, n) == completed_below(m, b, n),
    decreases n,
{
    if n > 0 {
        lemma_completed_agree(m, a, b, n - 1);
        assert(has_bit(a, n - 1) == has_bit(b, n - 1));
    }
}

/// A recheck sets exactly the bits of the pieces that stand, and counts
/// exactly the content of the pieces whose bits it sets.
pub proof fn law_recheck_counts_what_stands(m: MetaModel, bytes: int, verdicts: Seq<bool>)
    requires
        bytes >= 0,
        verdicts.len() <= 8 * bytes,
    ensures
        forall|i: int|
            0 <= i ==> #[trigger] has_bit(checked_bits(bytes, verdicts), i) == (i < verdicts.len()
                && verdicts[i]),
        checked_bytes(m, verdicts) == completed_below(
            m,
            checked_bits(bytes, verdicts),
            verdicts.len() as int,
        ),
    decreases verdicts.len(),
{
    let bits = checked_bits(bytes, verdicts);
    assert forall|i: int| 0 <= i implies #[trigger] has_bit(bits, i) == (i < verdicts.len()
        && verdicts[i]) by {
        lemma_checked_bits(bytes, verdicts, i);
    }
    if verdicts.len() > 0 {
        let before = checked_bits(bytes, verdicts.drop_last());
        law_recheck_counts_what_stands(m, bytes, verdicts.drop_last());
        let n = verdicts.len() - 1;
        assert forall|i: int| 0 <= i < n implies has_bit(before, i) == #[trigger] has_bit(
            bits,
            i,
        ) by {
            lemma_checked_bits(bytes, verdicts.drop_last(), i);
        }
        lemma_completed_agree(m, before, bits, n);
        assert(has_bit(bits, n) == verdicts.last());
    }
}

} // verus!
