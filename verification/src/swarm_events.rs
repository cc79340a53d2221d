//! What a swarm makes of the things that its workers tell it.

use crate::address::{PeerId, PeerKey, SocketAddress};
use crate::bitfield::{
    all_complete, bit_is_set, has_all, has_bit, set_bit, useful_count, useful_piece_count,
    with_bit,
};
use crate::budget::DownloadBudget;
use crate::error::{ActorError, Fault};
use crate::metainfo::{MetaModel, Metainfo};
use crate::num::{max_of, min_of};
use crate::rates::{assignment_target, assignment_target_of};
use crate::record::{counted, TorrentRecord};
use crate::swarm::{
    acts_view, distinct_workers, lemma_distinct_update, numbered, removed, with_worker, worker_at,
    workers_view, Effect, PeerModel, SwarmAct, SwarmAction, SwarmModel, SwarmState,
};
use crate::swarm_peers::{all_offered, limit_enforced, SelfAddresses};
use crate::upload::{ReputationEntry, UploadPolicy};
use vstd::prelude::*;
use vstd::slice::slice_to_vec;

verus! {

/// What a worker tells the swarm.
#[derive(Debug)]
pub enum PeerWorkerEvent {
    Ready { worker: usize, peer_id: PeerId, bitfield: Vec<u8>, peers: Vec<SocketAddress> },
    /// The end of an assigned piece. It has to be settled before its data is
    /// verified, and never comes here.
    Complete { worker: usize, piece: usize },
    Gone { worker: usize, error: String },
    Peers { worker: usize, peers: Vec<SocketAddress> },
    Have { worker: usize, index: u32 },
    ChokeState { worker: usize, choked: bool },
    HolePunch { worker: usize, address: SocketAddress },
    /// The worker's request pipeline is about to run dry.
    NeedPieces { worker: usize, rate_bytes_per_second: u64 },
}

/// What a worker tells the swarm, by its values.
pub enum Notice {
    Ready(usize, PeerId, Seq<u8>, Seq<SocketAddress>),
    Complete(usize, usize),
    Gone(usize, Seq<char>),
    Peers(usize, Seq<SocketAddress>),
    Have(usize, u32),
    ChokeState(usize, bool),
    HolePunch(usize, SocketAddress),
    NeedPieces(usize, u64),
}

impl PeerWorkerEvent {
    pub open spec fn view(&self) -> Notice {
        match *self {
            PeerWorkerEvent::Ready { worker, peer_id, bitfield, peers } => Notice::Ready(
                worker,
                peer_id,
                bitfield@,
                peers@,
            ),
            PeerWorkerEvent::Complete { worker, piece } => Notice::Complete(worker, piece),
            PeerWorkerEvent::Gone { worker, error } => Notice::Gone(worker, error@),
            PeerWorkerEvent::Peers { worker, peers } => Notice::Peers(worker, peers@),
            PeerWorkerEvent::Have { worker, index } => Notice::Have(worker, index),
            PeerWorkerEvent::ChokeState { worker, choked } => Notice::ChokeState(worker, choked),
            PeerWorkerEvent::HolePunch { worker, address } => Notice::HolePunch(worker, address),
            PeerWorkerEvent::NeedPieces { worker, rate_bytes_per_second } => Notice::NeedPieces(
                worker,
                rate_bytes_per_second,
            ),
        }
    }
}

/// What a swarm looks at besides its own state.
pub struct Surroundings {
    pub own: SelfAddresses,
    pub entries: Seq<ReputationEntry>,
    /// The pieces that are on record as complete.
    pub completed: Seq<u8>,
    pub now: u64,
}

pub open spec fn surroundings(
    own: SelfAddresses,
    policy: UploadPolicy,
    completed: Seq<u8>,
    now: u64,
) -> Surroundings {
    Surroundings { own, entries: policy.reputation@, completed, now }
}

/// A peer whose pieces have become known.
pub open spec fn ready_peer(
    s: SwarmModel,
    peer: PeerModel,
    peer_id: PeerId,
    bitfield: Seq<u8>,
    around: Surroundings,
) -> PeerModel {
    PeerModel {
        bitfield: Some(bitfield),
        peer_key: Some(PeerKey { ip: peer.address.ip, peer_id }),
        idle: true,
        choked: false,
        seed: has_all(bitfield, s.piece_count),
        useful_pieces: useful_count(bitfield, around.completed, s.piece_count as nat) as int,
        connected_at: around.now,
        skip_generation: None,
        ..peer
    }
}

/// A connection was made.
pub open spec fn on_ready(
    s: SwarmModel,
    worker: usize,
    peer_id: PeerId,
    bitfield: Seq<u8>,
    peers: Seq<SocketAddress>,
    around: Surroundings,
) -> Effect {
    let at = worker_at(s.workers, worker, 0);
    let settled = SwarmModel {
        connecting: max_of(s.connecting - 1, 0),
        schedule_dirty: true,
        ..s
    };
    let known = if at < s.workers.len() {
        with_worker(
            settled,
            at,
            ready_peer(s, s.workers[at], peer_id, bitfield, around),
        )
    } else {
        settled
    };
    let interest = if at < s.workers.len() {
        seq![
            SwarmAct::SetInteresting(
                PeerKey { ip: s.workers[at].address.ip, peer_id },
                useful_count(bitfield, around.completed, s.piece_count as nat) > 0,
            ),
        ]
    } else {
        Seq::empty()
    };
    let rest = limit_enforced(
        all_offered(known, around.own, peers, false, around.now),
        around.entries,
        around.now,
    );
    Effect { swarm: rest.swarm, acts: seq![SwarmAct::AddPeer(bitfield)] + interest + rest.acts }
}

/// A worker ended.
pub open spec fn on_gone(s: SwarmModel, worker: usize, error: Seq<char>) -> Effect {
    let at = worker_at(s.workers, worker, 0);
    let settled = if at < s.workers.len() && s.workers[at].bitfield is None {
        SwarmModel { connecting: max_of(s.connecting - 1, 0), ..s }
    } else {
        s
    };
    let gone = removed(settled, worker);
    Effect { swarm: SwarmModel { last_error: Some(error), ..gone.swarm }, acts: gone.acts }
}

/// A peer came to have a piece that it did not have before.
pub open spec fn gained(completed: Seq<u8>, peer: PeerModel, piece: int) -> PeerModel {
    PeerModel {
        bitfield: Some(with_bit(peer.bitfield->0, piece)),
        useful_pieces: if has_bit(completed, piece) {
            peer.useful_pieces
        } else {
            min_of(peer.useful_pieces + 1, usize::MAX as int)
        },
        skip_generation: None,
        ..peer
    }
}

pub open spec fn gained_acts(
    completed: Seq<u8>,
    peer: PeerModel,
    piece: int,
) -> Seq<SwarmAct> {
    let told = seq![SwarmAct::AddPiece(piece)];
    if !has_bit(completed, piece) && gained(completed, peer, piece).useful_pieces == 1
        && peer.peer_key is Some {
        told.push(SwarmAct::SetInteresting(peer.peer_key->0, true))
    } else {
        told
    }
}

/// A peer announced a piece. One that is complete here is announced in return.
pub open spec fn on_have(
    s: SwarmModel,
    completed: Seq<u8>,
    worker: usize,
    index: u32,
) -> Result<Effect, Fault> {
    let piece = index as int;
    let at = worker_at(s.workers, worker, 0);
    if piece >= s.piece_count {
        Err(Fault::Peer("peer announced a piece outside the torrent"@))
    } else if at >= s.workers.len() || s.workers[at].bitfield is None {
        Ok(Effect { swarm: s, acts: Seq::empty() })
    } else {
        let peer = s.workers[at];
        let answer = if has_bit(completed, piece) {
            seq![SwarmAct::SendHave(worker, index)]
        } else {
            Seq::empty()
        };
        if has_bit(peer.bitfield->0, piece) {
            Ok(Effect { swarm: s, acts: answer })
        } else {
            Ok(
                Effect {
                    swarm: SwarmModel {
                        schedule_dirty: true,
                        ..with_worker(s, at, gained(completed, peer, piece))
                    },
                    acts: gained_acts(completed, peer, piece) + answer,
                },
            )
        }
    }
}

/// The peers that a worker heard of are offered to the swarm, as long as the
/// worker belongs to it.
pub open spec fn on_peers(
    s: SwarmModel,
    worker: usize,
    peers: Seq<SocketAddress>,
    force_utp: bool,
    around: Surroundings,
) -> Effect {
    Effect {
        swarm: if worker_at(s.workers, worker, 0) < s.workers.len() {
            all_offered(s, around.own, peers, force_utp, around.now)
        } else {
            s
        },
        acts: Seq::empty(),
    }
}

pub open spec fn on_choke_state(s: SwarmModel, worker: usize, choked: bool) -> Effect {
    let at = worker_at(s.workers, worker, 0);
    let told = if at < s.workers.len() {
        with_worker(s, at, PeerModel { choked, ..s.workers[at] })
    } else {
        s
    };
    Effect {
        swarm: SwarmModel { schedule_dirty: s.schedule_dirty || !choked, ..told },
        acts: Seq::empty(),
    }
}

pub open spec fn on_need_pieces(s: SwarmModel, worker: usize, rate: u64) -> Effect {
    let at = worker_at(s.workers, worker, 0);
    let told = if at < s.workers.len() {
        with_worker(
            s,
            at,
            PeerModel {
                wants_more: true,
                target_bytes: assignment_target_of(rate as int),
                ..s.workers[at]
            },
        )
    } else {
        s
    };
    Effect { swarm: SwarmModel { schedule_dirty: true, ..told }, acts: Seq::empty() }
}

/// What a swarm makes of what a worker tells it.
pub open spec fn noticed(s: SwarmModel, notice: Notice, around: Surroundings) -> Result<
    Effect,
    Fault,
> {
    match notice {
        Notice::Ready(worker, peer_id, bitfield, peers) => Ok(
            on_ready(s, worker, peer_id, bitfield, peers, around),
        ),
        Notice::Complete(..) => Err(
            Fault::Peer("piece completion bypassed the storage pipeline"@),
        ),
        Notice::Gone(worker, error) => Ok(on_gone(s, worker, error)),
        Notice::Peers(worker, peers) => Ok(on_peers(s, worker, peers, false, around)),
        Notice::Have(worker, index) => on_have(s, around.completed, worker, index),
        Notice::ChokeState(worker, choked) => Ok(on_choke_state(s, worker, choked)),
        Notice::HolePunch(worker, address) => Ok(
            on_peers(s, worker, seq![address], true, around),
        ),
        Notice::NeedPieces(worker, rate) => Ok(on_need_pieces(s, worker, rate)),
    }
}

/// A peer once a piece that it has is complete here.
pub open spec fn spent(peer: PeerModel, piece: int) -> PeerModel {
    if peer.bitfield is Some && has_bit(peer.bitfield->0, piece) {
        PeerModel { useful_pieces: max_of(peer.useful_pieces - 1, 0), ..peer }
    } else {
        peer
    }
}

/// The peers among the first `n` that have nothing left that is missing here.
pub open spec fn spent_acts(workers: Seq<PeerModel>, piece: int, n: int) -> Seq<SwarmAct>
    decreases n,
{
    if n <= 0 {
        Seq::empty()
    } else {
        let before = spent_acts(workers, piece, n - 1);
        let peer = workers[n - 1];
        if peer.bitfield is Some && has_bit(peer.bitfield->0, piece) && spent(
            peer,
            piece,
        ).useful_pieces == 0 && peer.peer_key is Some {
            before.push(SwarmAct::SetInteresting(peer.peer_key->0, false))
        } else {
            before
        }
    }
}

/// The position of a piece at or after `from`, or the length.
pub open spec fn writing_at(writing: Seq<usize>, piece: usize, from: int) -> int
    decreases writing.len() - from,
{
    if from < 0 || from >= writing.len() || writing[from] == piece {
        from
    } else {
        writing_at(writing, piece, from + 1)
    }
}

/// A piece is on disk for good: it counts as complete, and no peer is useful
/// for it any more.
pub open spec fn committed_one(s: SwarmModel, piece: usize) -> Effect {
    let slot = writing_at(s.writing, piece, 0);
    Effect {
        swarm: SwarmModel {
            writing: if slot < s.writing.len() {
                s.writing.remove(slot)
            } else {
                s.writing
            },
            completed: with_bit(s.completed, piece as int),
            workers: Seq::new(s.workers.len(), |i: int| spent(s.workers[i], piece as int)),
            ..s
        },
        acts: spent_acts(s.workers, piece as int, s.workers.len() as int),
    }
}

/// A swarm and a record while pieces are committed to them, and the fault that
/// stopped that.
pub struct Commit {
    pub swarm: SwarmModel,
    pub acts: Seq<SwarmAct>,
    /// The pieces that are on record as complete.
    pub completed: Seq<u8>,
    /// The bytes that are on record as downloaded.
    pub downloaded: int,
    pub fault: Option<Fault>,
}

/// One more piece is committed. Its content is counted last, and may not be
/// countable.
pub open spec fn commit_step(m: MetaModel, before: Commit, piece: usize) -> Commit {
    let effect = committed_one(before.swarm, piece);
    let total = counted(m, before.downloaded, piece as int);
    Commit {
        swarm: effect.swarm,
        acts: before.acts + effect.acts,
        completed: with_bit(before.completed, piece as int),
        downloaded: match total {
            Ok(total) => total,
            Err(_) => before.downloaded,
        },
        fault: match total {
            Ok(_) => None,
            Err(fault) => Some(fault),
        },
    }
}

/// Pieces are committed one by one, up to and with the first whose content
/// cannot be counted.
pub open spec fn committed(
    m: MetaModel,
    s: SwarmModel,
    completed: Seq<u8>,
    downloaded: int,
    pieces: Seq<usize>,
) -> Commit
    decreases pieces.len(),
{
    if pieces.len() == 0 {
        Commit { swarm: s, acts: Seq::empty(), completed, downloaded, fault: None }
    } else {
        let before = committed(m, s, completed, downloaded, pieces.drop_last());
        if before.fault is Some {
            before
        } else {
            commit_step(m, before, pieces.last())
        }
    }
}

/// Nothing is committed behind the piece that stopped it.
proof fn lemma_commit_stops(
    m: MetaModel,
    s: SwarmModel,
    completed: Seq<u8>,
    downloaded: int,
    pieces: Seq<usize>,
    n: int,
)
    requires
        0 <= n <= pieces.len(),
        committed(m, s, completed, downloaded, pieces.take(n)).fault is Some,
    ensures
        committed(m, s, completed, downloaded, pieces) == committed(
            m,
            s,
            completed,
            downloaded,
            pieces.take(n),
        ),
    decreases pieces.len(),
{
    if n < pieces.len() {
        assert(pieces.drop_last().take(n) =~= pieces.take(n));
        lemma_commit_stops(m, s, completed, downloaded, pieces.drop_last(), n);
    } else {
        assert(pieces.take(n) =~= pieces);
    }
}

impl SwarmState {
    fn forget_writing(&mut self, piece: usize)
        ensures
            ({
                let slot = writing_at(old(self).writing@, piece, 0);
                final(self).writing@ == if slot < old(self).writing@.len() {
                    old(self).writing@.remove(slot)
                } else {
                    old(self).writing@
                }
            }),
            *final(self) == (SwarmState { writing: final(self).writing, ..*old(self) }),
    {
        let mut i: usize = 0;
        while i < self.writing.len()
            invariant
                *self == *old(self),
                i <= self.writing@.len(),
                writing_at(self.writing@, piece, 0) == writing_at(
                    self.writing@,
                    piece,
                    i as int,
                ),
            decreases self.writing@.len() - i,
        {
            if self.writing[i] == piece {
                self.writing.remove(i);
                return ;
            }
            i += 1;
        }
    }

    fn commit_piece(&mut self, piece: usize, actions: &mut Vec<SwarmAction>, Ghost(shared): Ghost<
        DownloadBudget,
    >)
        requires
            old(self).wf(),
        ensures
            final(self).wf(),
            ({
                let effect = committed_one(old(self).model(shared), piece);
                &&& final(self).model(shared) == effect.swarm
                &&& acts_view(final(actions)@) == acts_view(old(actions)@) + effect.acts
            }),
    {
        let ghost before = self.model(shared);
        let ghost done = acts_view(actions@);
        self.forget_writing(piece);
        set_bit(&mut self.completed_pieces, piece);
        let ghost rest = self.model(shared);
        let mut i: usize = 0;
        assert(done + spent_acts(before.workers, piece as int, 0) =~= done);
        while i < self.workers.len()
            invariant
                self.workers@.len() == before.workers.len(),
                i <= self.workers@.len(),
                self.model(shared) == (SwarmModel {
                    workers: workers_view(self.workers@),
                    ..rest
                }),
                forall|k: int|
                    0 <= k < i ==> (#[trigger] self.workers@[k])@ == spent(
                        before.workers[k],
                        piece as int,
                    ),
                forall|k: int|
                    i <= k < self.workers@.len() ==> (#[trigger] self.workers@[k])@
                        == before.workers[k],
                acts_view(actions@) == done + spent_acts(
                    before.workers,
                    piece as int,
                    i as int,
                ),
            decreases self.workers@.len() - i,
        {
            let ghost said = acts_view(actions@);
            let ghost peer = before.workers[i as int];
            assert(self.workers@[i as int]@ == peer);
            let has: bool = match &self.workers[i].bitfield {
                Some(bitfield) => bit_is_set(bitfield.as_slice(), piece),
                None => false,
            };
            if has {
                self.workers[i].useful_pieces = self.workers[i].useful_pieces.saturating_sub(1);
                assert(self.workers@[i as int]@ == spent(peer, piece as int));
                if self.workers[i].useful_pieces == 0 {
                    if let Some(key) = self.workers[i].peer_key {
                        actions.push(
                            SwarmAction::SetInteresting { peer: key, interesting: false },
                        );
                        assert(acts_view(actions@) =~= said.push(
                            SwarmAct::SetInteresting(key, false),
                        ));
                    }
                }
            }
            assert(acts_view(actions@) =~= done + spent_acts(
                before.workers,
                piece as int,
                i + 1,
            ));
            i += 1;
        }
        proof {
            let wanted = committed_one(before, piece).swarm;
            assert(workers_view(self.workers@) =~= wanted.workers);
            lemma_same_numbers(before.workers, wanted.workers);
        }
    }

    /// Pieces are on disk for good: their bits are set here and on record, and
    /// their content is counted on record. A piece whose content cannot be
    /// counted stops that, when its bits are set already.
    pub fn commit_flushed_pieces(
        &mut self,
        pieces: &Vec<usize>,
        metainfo: &Metainfo,
        record: &mut TorrentRecord,
        actions: &mut Vec<SwarmAction>,
        shared: &DownloadBudget,
    ) -> (result: Result<(), ActorError>)
        requires
            old(self).wf(),
            metainfo.wf(),
        ensures
            final(self).wf(),
            final(record).same_but_progress(*old(record)),
            final(record).state == old(record).state,
            ({
                let commit = committed(
                    metainfo@,
                    old(self).model(*shared),
                    old(record).completed_pieces@,
                    old(record).downloaded as int,
                    pieces@,
                );
                &&& match result {
                    Ok(()) => commit.fault is None,
                    Err(error) => commit.fault == Some(error@),
                }
                &&& final(self).model(*shared) == commit.swarm
                &&& acts_view(final(actions)@) == acts_view(old(actions)@) + commit.acts
                &&& final(record).completed_pieces@ == commit.completed
                &&& final(record).downloaded == commit.downloaded
            }),
    {
        let ghost m = metainfo@;
        let ghost before = self.model(*shared);
        let ghost completed = record.completed_pieces@;
        let ghost downloaded = record.downloaded as int;
        let ghost done = acts_view(actions@);
        let mut i: usize = 0;
        proof {
            assert(pieces@.take(0) =~= Seq::empty());
            assert(done + Seq::<SwarmAct>::empty() =~= done);
        }
        while i < pieces.len()
            invariant
                self.wf(),
                metainfo.wf(),
                m == metainfo@,
                before == old(self).model(*shared),
                completed == old(record).completed_pieces@,
                downloaded == old(record).downloaded,
                done == acts_view(old(actions)@),
                i <= pieces@.len(),
                record.same_but_progress(*old(record)),
                record.state == old(record).state,
                ({
                    let so_far = pieces@.take(i as int);
                    let commit = committed(m, before, completed, downloaded, so_far);
                    &&& commit.fault is None
                    &&& self.model(*shared) == commit.swarm
                    &&& acts_view(actions@) == done + commit.acts
                    &&& record.completed_pieces@ == commit.completed
                    &&& record.downloaded == commit.downloaded
                }),
            decreases pieces@.len() - i,
        {
            let ghost so_far = committed(m, before, completed, downloaded, pieces@.take(i as int));
            let ghost next = committed(m, before, completed, downloaded, pieces@.take(i + 1));
            proof {
                assert(pieces@.take(i + 1).drop_last() =~= pieces@.take(i as int));
                assert(pieces@.take(i + 1).last() == pieces@[i as int]);
                assert(next == commit_step(m, so_far, pieces@[i as int]));
            }
            self.commit_piece(pieces[i], actions, Ghost(*shared));
            assert(acts_view(actions@) =~= done + next.acts);
            match record.accept_piece(metainfo, pieces[i]) {
                Ok(()) => {},
                Err(error) => {
                    proof {
                        lemma_commit_stops(m, before, completed, downloaded, pieces@, i + 1);
                    }
                    return Err(error);
                },
            }
            i += 1;
        }
        assert(pieces@.take(pieces@.len() as int) =~= pieces@);
        Ok(())
    }

    fn peer_ready(
        &mut self,
        shared: &mut DownloadBudget,
        own: &SelfAddresses,
        policy: &UploadPolicy,
        completed: &[u8],
        worker: usize,
        peer_id: PeerId,
        bitfield: Vec<u8>,
        peers: &Vec<SocketAddress>,
        now: u64,
        actions: &mut Vec<SwarmAction>,
    )
        requires
            old(self).wf(),
        ensures
            final(self).wf(),
            ({
                let around = surroundings(*own, *policy, completed@, now);
                let effect = on_ready(
                    old(self).model(*old(shared)),
                    worker,
                    peer_id,
                    bitfield@,
                    peers@,
                    around,
                );
                &&& final(self).model(*final(shared)) == effect.swarm
                &&& acts_view(final(actions)@) == acts_view(old(actions)@) + effect.acts
            }),
    {
        let ghost before = self.model(*shared);
        let ghost done = acts_view(actions@);
        self.connecting = self.connecting.saturating_sub(1);
        self.schedule_dirty = true;
        let seed: bool = all_complete(bitfield.as_slice(), self.piece_count);
        let useful: usize = useful_piece_count(
            bitfield.as_slice(),
            completed,
            self.piece_count,
        );
        actions.push(SwarmAction::AddPeer { bitfield: slice_to_vec(bitfield.as_slice()) });
        let ghost told = acts_view(actions@);
        assert(told =~= done.push(SwarmAct::AddPeer(bitfield@)));
        let ghost pieces = bitfield@;
        if let Some(at) = self.find_worker(worker) {
            let ghost peer = before.workers[at as int];
            assert(peer == self.workers@[at as int]@);
            let key = PeerKey { ip: self.workers[at].address.ip, peer_id };
            self.workers[at].bitfield = Some(bitfield);
            self.workers[at].peer_key = Some(key);
            self.workers[at].idle = true;
            self.workers[at].choked = false;
            self.workers[at].seed = seed;
            self.workers[at].useful_pieces = useful;
            self.workers[at].connected_at = now;
            self.workers[at].skip_generation = None;
            actions.push(SwarmAction::SetInteresting { peer: key, interesting: useful > 0 });
            proof {
                let around = surroundings(*own, *policy, completed@, now);
                let next = ready_peer(before, peer, peer_id, pieces, around);
                assert(self.workers@[at as int]@ == next);
                assert(workers_view(self.workers@) =~= before.workers.update(at as int, next));
                lemma_distinct_update(before.workers, at as int, next);
                assert(acts_view(actions@) =~= told.push(
                    SwarmAct::SetInteresting(key, useful > 0),
                ));
            }
        }
        self.enqueue_peer_candidates(own, peers, false, now, &*shared);
        let ghost said = acts_view(actions@);
        let ghost now_model = self.model(*shared);
        self.enforce_peer_limit(shared, policy, now, actions);
        proof {
            let around = surroundings(*own, *policy, completed@, now);
            assert(acts_view(actions@) =~= done + on_ready(
                before,
                worker,
                peer_id,
                pieces,
                peers@,
                around,
            ).acts);
        }
    }

    fn peer_gone(
        &mut self,
        shared: &mut DownloadBudget,
        worker: usize,
        error: String,
        actions: &mut Vec<SwarmAction>,
    )
        requires
            old(self).wf(),
        ensures
            final(self).wf(),
            ({
                let effect = on_gone(old(self).model(*old(shared)), worker, error@);
                &&& final(self).model(*final(shared)) == effect.swarm
                &&& acts_view(final(actions)@) == acts_view(old(actions)@) + effect.acts
            }),
    {
        if let Some(at) = self.find_worker(worker) {
            assert(self.model(*shared).workers[at as int] == self.workers@[at as int]@);
            if self.workers[at].bitfield.is_none() {
                self.connecting = self.connecting.saturating_sub(1);
            }
        }
        self.remove_worker(shared, worker, actions);
        self.last_error = Some(error);
    }

    fn peer_have(
        &mut self,
        completed: &[u8],
        worker: usize,
        index: u32,
        actions: &mut Vec<SwarmAction>,
        Ghost(shared): Ghost<DownloadBudget>,
    ) -> (result: Result<(), ActorError>)
        requires
            old(self).wf(),
        ensures
            final(self).wf(),
            match (result, on_have(old(self).model(shared), completed@, worker, index)) {
                (Ok(()), Ok(effect)) => final(self).model(shared) == effect.swarm && acts_view(
                    final(actions)@,
                ) == acts_view(old(actions)@) + effect.acts,
                (Err(error), Err(fault)) => error@ == fault && *final(self) == *old(self)
                    && final(actions)@ == old(actions)@,
                _ => false,
            },
    {
        let ghost before = self.model(shared);
        let ghost done = acts_view(actions@);
        assert(done + Seq::<SwarmAct>::empty() =~= done);
        let piece: usize = index as usize;
        if piece >= self.piece_count {
            return Err(ActorError::peer("peer announced a piece outside the torrent"));
        }
        let at: usize = match self.find_worker(worker) {
            Some(at) => at,
            None => {
                return Ok(());
            },
        };
        let ghost peer = before.workers[at as int];
        assert(peer == self.workers@[at as int]@);
        let complete: bool = bit_is_set(completed, piece);
        let mut bitfield: Vec<u8> = match &self.workers[at].bitfield {
            Some(bitfield) => slice_to_vec(bitfield.as_slice()),
            None => {
                return Ok(());
            },
        };
        if !bit_is_set(bitfield.as_slice(), piece) {
            set_bit(&mut bitfield, piece);
            self.workers[at].bitfield = Some(bitfield);
            actions.push(SwarmAction::AddPiece { piece });
            let ghost added = acts_view(actions@);
            assert(added =~= done.push(SwarmAct::AddPiece(piece as int)));
            if !complete {
                self.workers[at].useful_pieces = self.workers[at].useful_pieces.saturating_add(1);
                if self.workers[at].useful_pieces == 1 {
                    if let Some(key) = self.workers[at].peer_key {
                        actions.push(SwarmAction::SetInteresting { peer: key, interesting: true });
                        assert(acts_view(actions@) =~= added.push(
                            SwarmAct::SetInteresting(key, true),
                        ));
                    }
                }
            }
            self.workers[at].skip_generation = None;
            self.schedule_dirty = true;
            proof {
                let next = gained(completed@, peer, piece as int);
                assert(self.workers@[at as int]@ == next);
                assert(workers_view(self.workers@) =~= before.workers.update(at as int, next));
                lemma_distinct_update(before.workers, at as int, next);
                assert(acts_view(actions@) =~= done + gained_acts(completed@, peer, piece as int));
            }
        }
        if complete {
            let ghost said = acts_view(actions@);
            actions.push(SwarmAction::SendHave { worker, index });
            assert(acts_view(actions@) =~= said.push(SwarmAct::SendHave(worker, index)));
        }
        assert(acts_view(actions@) =~= done + on_have(
            before,
            completed@,
            worker,
            index,
        )->Ok_0.acts);
        Ok(())
    }

    /// What the swarm makes of what a worker tells it, given the pieces that are
    /// on record as complete. What is refused changes nothing.
    pub fn handle_worker_event(
        &mut self,
        shared: &mut DownloadBudget,
        own: &SelfAddresses,
        policy: &UploadPolicy,
        completed: &[u8],
        event: PeerWorkerEvent,
        now: u64,
        actions: &mut Vec<SwarmAction>,
    ) -> (result: Result<(), ActorError>)
        requires
            old(self).wf(),
        ensures
            final(self).wf(),
            ({
                let around = surroundings(*own, *policy, completed@, now);
                match (result, noticed(old(self).model(*old(shared)), event@, around)) {
                    (Ok(()), Ok(effect)) => final(self).model(*final(shared)) == effect.swarm
                        && acts_view(final(actions)@) == acts_view(old(actions)@) + effect.acts,
                    (Err(error), Err(fault)) => {
                        &&& error@ == fault
                        &&& *final(self) == *old(self)
                        &&& *final(shared) == *old(shared)
                        &&& final(actions)@ == old(actions)@
                    },
                    _ => false,
                }
            }),
    {
        let ghost before = self.model(*shared);
        let ghost done = acts_view(actions@);
        assert(done + Seq::<SwarmAct>::empty() =~= done);
        match event {
            PeerWorkerEvent::Ready { worker, peer_id, bitfield, peers } => {
                self.peer_ready(
                    shared,
                    own,
                    policy,
                    completed,
                    worker,
                    peer_id,
                    bitfield,
                    &peers,
                    now,
                    actions,
                );
            },
            PeerWorkerEvent::Complete { .. } => {
                return Err(ActorError::peer("piece completion bypassed the storage pipeline"));
            },
            PeerWorkerEvent::Gone { worker, error } => {
                self.peer_gone(shared, worker, error, actions);
            },
            PeerWorkerEvent::Peers { worker, peers } => {
                if self.find_worker(worker).is_some() {
                    self.enqueue_peer_candidates(own, &peers, false, now, &*shared);
                }
            },
            PeerWorkerEvent::Have { worker, index } => {
                return self.peer_have(completed, worker, index, actions, Ghost(*shared));
            },
            PeerWorkerEvent::ChokeState { worker, choked } => {
                if let Some(at) = self.find_worker(worker) {
                    assert(before.workers[at as int] == self.workers@[at as int]@);
                    self.workers[at].choked = choked;
                    proof {
                        let next = PeerModel { choked, ..before.workers[at as int] };
                        assert(workers_view(self.workers@) =~= before.workers.update(
                            at as int,
                            next,
                        ));
                        lemma_distinct_update(before.workers, at as int, next);
                    }
                }
                if !choked {
                    self.schedule_dirty = true;
                }
            },
            PeerWorkerEvent::HolePunch { worker, address } => {
                if self.find_worker(worker).is_some() {
                    let mut addresses: Vec<SocketAddress> = Vec::new();
                    addresses.push(address);
                    assert(addresses@ =~= seq![address]);
                    self.enqueue_peer_candidates(own, &addresses, true, now, &*shared);
                }
            },
            PeerWorkerEvent::NeedPieces { worker, rate_bytes_per_second } => {
                if let Some(at) = self.find_worker(worker) {
                    assert(before.workers[at as int] == self.workers@[at as int]@);
                    self.workers[at].wants_more = true;
                    self.workers[at].target_bytes = assignment_target(rate_bytes_per_second);
                    proof {
                        let next = PeerModel {
                            wants_more: true,
                            target_bytes: assignment_target_of(rate_bytes_per_second as int),
                            ..before.workers[at as int]
                        };
                        assert(workers_view(self.workers@) =~= before.workers.update(
                            at as int,
                            next,
                        ));
                        lemma_distinct_update(before.workers, at as int, next);
                    }
                }
                self.schedule_dirty = true;
            },
        }
        Ok(())
    }
}

/// Lists with the same numbers are numbered alike.
proof fn lemma_same_numbers(a: Seq<PeerModel>, b: Seq<PeerModel>)
    requires
        a.len() == b.len(),
        forall|k: int| 0 <= k < a.len() ==> (#[trigger] a[k]).worker == b[k].worker,
        distinct_workers(a),
    ensures
        distinct_workers(b),
        forall|next: int| #[trigger] numbered(a, next) ==> numbered(b, next),
{
    assert forall|i: int, j: int| 0 <= i < j < b.len() implies (#[trigger] b[i]).worker != (
    #[trigger] b[j]).worker by {
        assert(a[i].worker != a[j].worker);
    }
    assert forall|next: int| #[trigger] numbered(a, next) implies numbered(b, next) by {
        assert forall|i: int| 0 <= i < b.len() implies (#[trigger] b[i]).worker < next by {
            assert(a[i].worker < next);
        }
    }
}

} // verus!
