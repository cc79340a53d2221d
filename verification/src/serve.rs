//! Uploading: what is answered to the messages of a peer, and which block of
//! which piece it gets.

use crate::address::{IpAddress, SocketAddress};
use crate::bitfield::{bit_is_set, has_bit};
use crate::buffer::{contents, len, slice};
use crate::choke::TransferPolicy;
use crate::hash_tree::HashRequest;
use crate::metadata::METADATA_BLOCK_BYTES;
use crate::num::min_of;
use crate::pipeline::BlockRequest;
use crate::rates::BLOCK_BYTES;
use crate::upload::{block_asked, interest_changed, Credit, UploadPolicy};
use bytes::Bytes;
use vstd::prelude::*;

verus! {

/// How a connection that uploads came about.
#[derive(Clone, Copy, Debug, Eq, PartialEq, Structural)]
pub enum UploadRole {
    /// A peer connected to this daemon, and only uploads go over the connection.
    Incoming,
    /// The connection is used for downloads as well.
    Shared,
    /// The connection was made through a third peer.
    HolePunched,
}

/// What a peer says of itself when extensions are negotiated.
#[derive(Clone, Copy, Debug, Eq, PartialEq)]
pub struct ExtensionHandshake {
    pub metadata_id: Option<u8>,
    pub holepunch_id: Option<u8>,
    /// Outstanding requests the remote will queue (`reqq`).
    pub request_queue: Option<usize>,
    /// The address under which the peer sees this daemon.
    pub your_ip: Option<IpAddress>,
}

#[derive(Clone, Copy, Debug, Eq, PartialEq, Structural)]
pub enum HolePunchKind {
    Rendezvous,
    Connect,
    Error,
}

#[derive(Clone, Copy, Debug, Eq, PartialEq, Structural)]
pub struct HolePunchMessage {
    pub kind: HolePunchKind,
    pub address: SocketAddress,
}

/// What a peer asks for.
#[derive(Debug)]
pub enum UploadEvent {
    Interested,
    NotInterested,
    Request(BlockRequest),
    Handshake(ExtensionHandshake),
    /// A request for a block of metadata, or some other metadata message.
    Metadata { piece: Option<u32> },
    Hashes(HashRequest),
    HolePunch(HolePunchMessage),
    Disconnected,
    Failed(String),
    /// Anything that has nothing to do with uploads.
    Other,
}

/// What is done about it.
#[derive(Debug)]
pub enum UploadAction {
    SendUnchoke,
    SendChoke,
    ServeBlock(BlockRequest),
    LearnAddress(IpAddress),
    /// Let other peers reach this one through the daemon.
    RegisterRendezvous { extension_id: u8 },
    UnregisterRendezvous,
    SendHandshake,
    SendMetadata { extension_id: u8, piece: u32 },
    ServeHashes(HashRequest),
    HolePunch(HolePunchMessage),
    /// The connection ends as it should.
    Finish,
    /// The connection broke.
    Fail(String),
    /// The message is for someone else.
    PassOn,
}

/// What is done about it, by its values.
pub enum UploadAct {
    SendUnchoke,
    SendChoke,
    ServeBlock(BlockRequest),
    LearnAddress(IpAddress),
    RegisterRendezvous(u8),
    UnregisterRendezvous,
    SendHandshake,
    SendMetadata(u8, u32),
    ServeHashes(HashRequest),
    HolePunch(HolePunchMessage),
    Finish,
    Fail(Seq<char>),
    PassOn,
}

impl UploadAction {
    pub open spec fn view(&self) -> UploadAct {
        match *self {
            UploadAction::SendUnchoke => UploadAct::SendUnchoke,
            UploadAction::SendChoke => UploadAct::SendChoke,
            UploadAction::ServeBlock(request) => UploadAct::ServeBlock(request),
            UploadAction::LearnAddress(ip) => UploadAct::LearnAddress(ip),
            UploadAction::RegisterRendezvous { extension_id } => UploadAct::RegisterRendezvous(
                extension_id,
            ),
            UploadAction::UnregisterRendezvous => UploadAct::UnregisterRendezvous,
            UploadAction::SendHandshake => UploadAct::SendHandshake,
            UploadAction::SendMetadata { extension_id, piece } => UploadAct::SendMetadata(
                extension_id,
                piece,
            ),
            UploadAction::ServeHashes(request) => UploadAct::ServeHashes(request),
            UploadAction::HolePunch(message) => UploadAct::HolePunch(message),
            UploadAction::Finish => UploadAct::Finish,
            UploadAction::Fail(text) => UploadAct::Fail(text@),
            UploadAction::PassOn => UploadAct::PassOn,
        }
    }
}

pub open spec fn uploads_view(actions: Seq<UploadAction>) -> Seq<UploadAct> {
    Seq::new(actions.len(), |i: int| actions[i]@)
}

/// What is remembered of a peer that is uploaded to.
#[derive(Clone, Copy, Debug, Eq, PartialEq)]
pub struct SeedState {
    pub interested: bool,
    pub remote_metadata_id: Option<u8>,
    pub remote_holepunch_id: Option<u8>,
    pub remote_request_queue: Option<usize>,
}

/// What is remembered after a message.
pub open spec fn remembered(
    state: SeedState,
    role: UploadRole,
    event: UploadEvent,
) -> SeedState {
    match event {
        UploadEvent::Interested => SeedState { interested: true, ..state },
        UploadEvent::NotInterested => SeedState { interested: false, ..state },
        UploadEvent::Handshake(handshake) => if role is HolePunched {
            state
        } else {
            SeedState {
                remote_metadata_id: handshake.metadata_id,
                remote_holepunch_id: handshake.holepunch_id,
                remote_request_queue: handshake.request_queue,
                ..state
            }
        },
        _ => state,
    }
}

/// What is done about a negotiation of extensions. Only a peer that connected
/// to this daemon can be reached by others through it.
pub open spec fn handshake_acts(role: UploadRole, handshake: ExtensionHandshake) -> Seq<UploadAct> {
    let learned = match handshake.your_ip {
        Some(ip) => seq![UploadAct::LearnAddress(ip)],
        None => Seq::empty(),
    };
    let known = if role is Incoming && handshake.holepunch_id is Some {
        seq![UploadAct::RegisterRendezvous(handshake.holepunch_id->0)]
    } else {
        Seq::empty()
    };
    learned + known + seq![UploadAct::SendHandshake]
}

/// What is done about a message, given whether an interested peer is unchoked
/// and whether an asked-for block may be sent.
pub open spec fn upload_acts(
    state: SeedState,
    role: UploadRole,
    event: UploadEvent,
    unchoked: bool,
    allowed: bool,
) -> Seq<UploadAct> {
    match event {
        UploadEvent::Interested => seq![
            if unchoked {
                UploadAct::SendUnchoke
            } else {
                UploadAct::SendChoke
            },
        ],
        UploadEvent::NotInterested => if role is HolePunched {
            Seq::empty()
        } else {
            seq![UploadAct::SendChoke]
        },
        UploadEvent::Request(request) => if state.interested && allowed {
            seq![UploadAct::ServeBlock(request)]
        } else if role is Shared {
            seq![UploadAct::SendChoke]
        } else {
            Seq::empty()
        },
        UploadEvent::Handshake(handshake) => if role is HolePunched {
            Seq::empty()
        } else {
            handshake_acts(role, handshake)
        },
        UploadEvent::Metadata { piece } => if role is HolePunched || piece is None
            || state.remote_metadata_id is None {
            Seq::empty()
        } else {
            seq![UploadAct::SendMetadata(state.remote_metadata_id->0, piece->0)]
        },
        UploadEvent::Hashes(request) => seq![UploadAct::ServeHashes(request)],
        UploadEvent::HolePunch(message) => if role is HolePunched {
            Seq::empty()
        } else {
            seq![UploadAct::HolePunch(message)]
        },
        UploadEvent::Disconnected => match role {
            UploadRole::Incoming => seq![UploadAct::UnregisterRendezvous, UploadAct::Finish],
            UploadRole::HolePunched => seq![UploadAct::Finish],
            UploadRole::Shared => seq![UploadAct::PassOn],
        },
        UploadEvent::Failed(text) => match role {
            UploadRole::Incoming => seq![UploadAct::UnregisterRendezvous, UploadAct::Fail(text@)],
            UploadRole::HolePunched => seq![UploadAct::Fail(text@)],
            UploadRole::Shared => seq![UploadAct::PassOn],
        },
        UploadEvent::Other => if role is Shared {
            seq![UploadAct::PassOn]
        } else {
            Seq::empty()
        },
    }
}

fn handshake_actions(role: UploadRole, handshake: ExtensionHandshake) -> (actions: Vec<UploadAction>)
    ensures
        uploads_view(actions@) == handshake_acts(role, handshake),
{
    let mut actions: Vec<UploadAction> = Vec::new();
    if let Some(ip) = handshake.your_ip {
        actions.push(UploadAction::LearnAddress(ip));
    }
    if let Some(extension_id) = handshake.holepunch_id {
        if role == UploadRole::Incoming {
            actions.push(UploadAction::RegisterRendezvous { extension_id });
        }
    }
    actions.push(UploadAction::SendHandshake);
    assert(uploads_view(actions@) =~= handshake_acts(role, handshake));
    actions
}

impl SeedState {
    pub fn new() -> (state: Self)
        ensures
            state == (SeedState {
                interested: false,
                remote_metadata_id: None,
                remote_holepunch_id: None,
                remote_request_queue: None,
            }),
    {
        Self {
            interested: false,
            remote_metadata_id: None,
            remote_holepunch_id: None,
            remote_request_queue: None,
        }
    }

    /// What is done about a message of a peer that is uploaded to.
    pub fn handle_upload_event(
        &mut self,
        role: UploadRole,
        policy: &mut UploadPolicy,
        transfer: &TransferPolicy,
        session: u64,
        event: UploadEvent,
        now: u64,
        credit: Credit,
    ) -> (actions: Vec<UploadAction>)
        requires
            old(policy).wf(),
        ensures
            final(policy).wf(),
            *final(self) == remembered(*old(self), role, event),
            ({
                let interest = interest_changed(
                    old(policy).sessions@,
                    old(policy).reputation@,
                    *transfer,
                    session,
                    event is Interested,
                    now,
                    credit,
                );
                let asked = block_asked(
                    old(policy).sessions@,
                    old(policy).reputation@,
                    *transfer,
                    session,
                    now,
                    credit,
                );
                &&& uploads_view(actions@) == upload_acts(
                    *old(self),
                    role,
                    event,
                    interest.1,
                    asked.1,
                )
                &&& final(policy).sessions@ == if event is Interested || event is NotInterested {
                    interest.0
                } else if event is Request && old(self).interested {
                    asked.0
                } else {
                    old(policy).sessions@
                }
            }),
            final(policy).reputation == old(policy).reputation,
            final(policy).round == old(policy).round,
            final(policy).limiter == old(policy).limiter,
    {
        let ghost before = *self;
        let mut actions: Vec<UploadAction> = Vec::new();
        match event {
            UploadEvent::Interested => {
                self.interested = true;
                if policy.set_upload_interest(transfer, session, true, now, credit) {
                    actions.push(UploadAction::SendUnchoke);
                } else {
                    actions.push(UploadAction::SendChoke);
                }
            },
            UploadEvent::NotInterested => {
                self.interested = false;
                policy.set_upload_interest(transfer, session, false, now, credit);
                if role != UploadRole::HolePunched {
                    actions.push(UploadAction::SendChoke);
                }
            },
            UploadEvent::Request(request) => {
                if self.interested && policy.upload_allowed(transfer, session, now, credit) {
                    actions.push(UploadAction::ServeBlock(request));
                } else if role == UploadRole::Shared {
                    actions.push(UploadAction::SendChoke);
                }
            },
            UploadEvent::Handshake(handshake) => {
                if role != UploadRole::HolePunched {
                    self.remote_metadata_id = handshake.metadata_id;
                    self.remote_holepunch_id = handshake.holepunch_id;
                    self.remote_request_queue = handshake.request_queue;
                    return handshake_actions(role, handshake);
                }
            },
            UploadEvent::Metadata { piece } => {
                if role != UploadRole::HolePunched {
                    if let (Some(piece), Some(extension_id)) = (piece, self.remote_metadata_id) {
                        actions.push(UploadAction::SendMetadata { extension_id, piece });
                    }
                }
            },
            UploadEvent::Hashes(request) => {
                actions.push(UploadAction::ServeHashes(request));
            },
            UploadEvent::HolePunch(message) => {
                if role != UploadRole::HolePunched {
                    actions.push(UploadAction::HolePunch(message));
                }
            },
            UploadEvent::Disconnected => match role {
                UploadRole::Incoming => {
                    actions.push(UploadAction::UnregisterRendezvous);
                    actions.push(UploadAction::Finish);
                },
                UploadRole::HolePunched => {
                    actions.push(UploadAction::Finish);
                },
                UploadRole::Shared => {
                    actions.push(UploadAction::PassOn);
                },
            },
            UploadEvent::Failed(text) => match role {
                UploadRole::Incoming => {
                    actions.push(UploadAction::UnregisterRendezvous);
                    actions.push(UploadAction::Fail(text));
                },
                UploadRole::HolePunched => {
                    actions.push(UploadAction::Fail(text));
                },
                UploadRole::Shared => {
                    actions.push(UploadAction::PassOn);
                },
            },
            UploadEvent::Other => {
                if role == UploadRole::Shared {
                    actions.push(UploadAction::PassOn);
                }
            },
        }
        proof {
            let interest = interest_changed(
                old(policy).sessions@,
                old(policy).reputation@,
                *transfer,
                session,
                event is Interested,
                now,
                credit,
            );
            let asked = block_asked(
                old(policy).sessions@,
                old(policy).reputation@,
                *transfer,
                session,
                now,
                credit,
            );
            assert(uploads_view(actions@) =~= upload_acts(
                before,
                role,
                event,
                interest.1,
                asked.1,
            ));
        }
        actions
    }
}

/// A peer that is not interested is never served, whatever it asks for.
pub proof fn law_only_interested_peers_are_served(
    state: SeedState,
    role: UploadRole,
    event: UploadEvent,
    unchoked: bool,
    allowed: bool,
    request: BlockRequest,
)
    requires
        upload_acts(state, role, event, unchoked, allowed).contains(UploadAct::ServeBlock(request)),
    ensures
        state.interested,
        allowed,
        event == UploadEvent::Request(request),
{
    let acts = upload_acts(state, role, event, unchoked, allowed);
    let i = choose|i: int| 0 <= i < acts.len() && acts[i] == UploadAct::ServeBlock(request);
    if let UploadEvent::Handshake(handshake) = event {
        if !(role is HolePunched) {
            let learned = match handshake.your_ip {
                Some(ip) => seq![UploadAct::LearnAddress(ip)],
                None => Seq::empty(),
            };
            let known = if role is Incoming && handshake.holepunch_id is Some {
                seq![UploadAct::RegisterRendezvous(handshake.holepunch_id->0)]
            } else {
                Seq::empty()
            };
            assert(acts[i] == (learned + known + seq![UploadAct::SendHandshake])[i]);
        }
    }
}

/// Whether a block can be asked for: at most one block's worth of a piece that
/// is complete here.
pub open spec fn is_servable(completed: Seq<u8>, pieces: int, request: BlockRequest) -> bool {
    0 < request.length <= 16384 && request.piece < pieces && has_bit(
        completed,
        request.piece as int,
    )
}

pub fn check_block_request(completed: &[u8], pieces: usize, request: BlockRequest) -> (result: bool)
    ensures
        result == is_servable(completed@, pieces as int, request),
{
    let length: usize = request.length as usize;
    let index: usize = request.piece as usize;
    length > 0 && length <= BLOCK_BYTES && index < pieces && bit_is_set(completed, index)
}

/// The block of a piece that was asked for, if it lies inside the piece.
pub fn cut_block(data: &Bytes, request: BlockRequest) -> (result: Option<Bytes>)
    ensures
        match result {
            Some(block) => request.begin + request.length <= contents(*data).len() && contents(
                block,
            ) == contents(*data).subrange(
                request.begin as int,
                request.begin + request.length,
            ),
            None => request.begin + request.length > contents(*data).len(),
        },
{
    let end: u64 = request.begin as u64 + request.length as u64;
    let length: usize = len(data);
    if end > length as u64 {
        return None;
    }
    Some(slice(data, request.begin as usize, end as usize))
}

/// Whether a peer is told that a request is rejected: one that understands it,
/// and whose flags count.
pub fn takes_rejects(role: UploadRole, reserved: [u8; 8]) -> (result: bool)
    ensures
        result == (role != UploadRole::HolePunched && reserved@[7] & 0x04u8 != 0),
{
    role != UploadRole::HolePunched && reserved[7] & 0x04 != 0
}

/// The range of a block of metadata: the last one may be short, and beyond the
/// end there is none.
pub open spec fn metadata_range(length: int, piece: int) -> Option<(int, int)> {
    let start = piece * 16384;
    if start > length {
        None
    } else {
        Some((start, min_of(length, start + 16384)))
    }
}

pub fn metadata_block(length: usize, piece: u32) -> (result: Option<(usize, usize)>)
    ensures
        match result {
            Some((start, end)) => metadata_range(length as int, piece as int) == Some(
                (start as int, end as int),
            ) && start <= end <= length,
            None => metadata_range(length as int, piece as int) is None,
        },
{
    let start: usize = match (piece as usize).checked_mul(METADATA_BLOCK_BYTES) {
        Some(start) => start,
        None => {
            return None;
        },
    };
    if start > length {
        return None;
    }
    let rest: usize = length - start;
    let end: usize = if rest < METADATA_BLOCK_BYTES { length } else { start + METADATA_BLOCK_BYTES };
    Some((start, end))
}

/// The wire's number for a peer that is not connected.
pub const NOT_CONNECTED: u32 = 2;

/// What is done about a request to bring two peers together.
#[derive(Clone, Copy, Debug, Eq, PartialEq, Structural)]
pub enum HolePunchPlan {
    /// Connect to the address.
    Dial,
    /// Tell both peers to connect to each other, each under its own number.
    Introduce { target: u8, requester: u8 },
    /// Tell the peer that the other one is not connected.
    Refuse { requester: u8, error_code: u32 },
    Ignore,
}

/// What is done about a hole punch message, given under which numbers the peer
/// that it names and the peer that sent it take such messages.
pub fn plan_holepunch(kind: HolePunchKind, target: Option<u8>, requester: Option<u8>) -> (plan:
    HolePunchPlan)
    ensures
        plan == (match kind {
            HolePunchKind::Connect => HolePunchPlan::Dial,
            HolePunchKind::Error => HolePunchPlan::Ignore,
            HolePunchKind::Rendezvous => match (requester, target) {
                (Some(requester), Some(target)) => HolePunchPlan::Introduce { target, requester },
                (Some(requester), None) => HolePunchPlan::Refuse {
                    requester,
                    error_code: NOT_CONNECTED,
                },
                (None, _) => HolePunchPlan::Ignore,
            },
        }),
{
    match kind {
        HolePunchKind::Connect => HolePunchPlan::Dial,
        HolePunchKind::Error => HolePunchPlan::Ignore,
        HolePunchKind::Rendezvous => match (requester, target) {
            (Some(requester), Some(target)) => HolePunchPlan::Introduce { target, requester },
            (Some(requester), None) => HolePunchPlan::Refuse {
                requester,
                error_code: NOT_CONNECTED,
            },
            (None, _) => HolePunchPlan::Ignore,
        },
    }
}

/// Cutting metadata into blocks and putting them one behind the other gives it
/// back: each block begins where the one before ends, and the last ends where
/// the metadata does.
pub proof fn law_metadata_blocks_cover(length: int, piece: int)
    requires
        0 <= piece,
        piece * 16384 < length,
    ensures
        metadata_range(length, piece) is Some,
        ({
            let (start, end) = metadata_range(length, piece)->0;
            &&& start == piece * 16384
            &&& end == min_of(length, (piece + 1) * 16384)
            &&& start < end
        }),
{
}

} // verus!
