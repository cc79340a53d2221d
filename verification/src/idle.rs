//! What a worker passes on of what its peer says between blocks.

use crate::address::SocketAddress;
use crate::arrival::{pex_addresses, reachable};
use crate::error::{fault_text, join, ActorError, Fault};
use crate::serve::{HolePunchKind, HolePunchMessage};
use crate::swarm_events::{Notice, PeerWorkerEvent};
use vstd::prelude::*;
use vstd::string::StringExecFns;

verus! {

/// What a peer says that is not about a block.
#[derive(Debug)]
pub enum IdleEvent {
    Have { index: u32 },
    Choke,
    Unchoke,
    /// The peers that it added to its list, or why the list cannot be read.
    Exchange(Result<Vec<SocketAddress>, String>),
    /// A message about hole punching, or why it cannot be read.
    HolePunch(Result<HolePunchMessage, String>),
    Disconnected,
    Failed(String),
    /// Anything else.
    Other,
}

/// What a worker passes on to its swarm.
#[derive(Debug)]
pub enum IdleOutcome {
    Nothing,
    Report(PeerWorkerEvent),
    /// The worker is done, and reports why.
    Gone { error: String },
}

/// What a worker passes on, by its values.
pub enum Passed {
    Nothing,
    Report(Notice),
    Gone(Seq<char>),
}

impl IdleOutcome {
    pub open spec fn view(&self) -> Passed {
        match *self {
            IdleOutcome::Nothing => Passed::Nothing,
            IdleOutcome::Report(event) => Passed::Report(event@),
            IdleOutcome::Gone { error } => Passed::Gone(error@),
        }
    }
}

/// What a worker passes on of what its peer says. What peers say of other
/// peers only counts for torrents that are not private.
pub open spec fn passed(worker: usize, allow_pex: bool, event: IdleEvent) -> Passed {
    match event {
        IdleEvent::Have { index } => Passed::Report(Notice::Have(worker, index)),
        IdleEvent::Choke => Passed::Report(Notice::ChokeState(worker, true)),
        IdleEvent::Unchoke => Passed::Report(Notice::ChokeState(worker, false)),
        IdleEvent::Exchange(update) => if !allow_pex {
            Passed::Nothing
        } else {
            match update {
                Ok(added) => Passed::Report(Notice::Peers(worker, reachable(added@))),
                Err(text) => Passed::Gone(
                    fault_text(Fault::Peer("invalid PEX update: "@ + text@)),
                ),
            }
        },
        IdleEvent::HolePunch(message) => if !allow_pex {
            Passed::Nothing
        } else {
            match message {
                Ok(message) => if message.kind == HolePunchKind::Connect {
                    Passed::Report(Notice::HolePunch(worker, message.address))
                } else {
                    Passed::Nothing
                },
                Err(text) => Passed::Gone(text@),
            }
        },
        IdleEvent::Disconnected => Passed::Gone("peer disconnected"@),
        IdleEvent::Failed(text) => Passed::Gone(text@),
        IdleEvent::Other => Passed::Nothing,
    }
}

pub fn forward_idle_peer_event(worker: usize, allow_pex: bool, event: IdleEvent) -> (outcome:
    IdleOutcome)
    ensures
        outcome@ == passed(worker, allow_pex, event),
{
    match event {
        IdleEvent::Have { index } => IdleOutcome::Report(PeerWorkerEvent::Have { worker, index }),
        IdleEvent::Choke => IdleOutcome::Report(
            PeerWorkerEvent::ChokeState { worker, choked: true },
        ),
        IdleEvent::Unchoke => IdleOutcome::Report(
            PeerWorkerEvent::ChokeState { worker, choked: false },
        ),
        IdleEvent::Exchange(update) => {
            if !allow_pex {
                return IdleOutcome::Nothing;
            }
            match update {
                Ok(added) => IdleOutcome::Report(
                    PeerWorkerEvent::Peers { worker, peers: pex_addresses(&added) },
                ),
                Err(text) => {
                    let error = ActorError::Peer(join("invalid PEX update: ", text.as_str()));
                    IdleOutcome::Gone { error: error.message() }
                },
            }
        },
        IdleEvent::HolePunch(message) => {
            if !allow_pex {
                return IdleOutcome::Nothing;
            }
            match message {
                Ok(message) => {
                    if message.kind == HolePunchKind::Connect {
                        IdleOutcome::Report(
                            PeerWorkerEvent::HolePunch { worker, address: message.address },
                        )
                    } else {
                        IdleOutcome::Nothing
                    }
                },
                Err(error) => IdleOutcome::Gone { error },
            }
        },
        IdleEvent::Disconnected => IdleOutcome::Gone {
            error: String::from_str("peer disconnected"),
        },
        IdleEvent::Failed(error) => IdleOutcome::Gone { error },
        IdleEvent::Other => IdleOutcome::Nothing,
    }
}

/// In a private torrent peers cannot bring in other peers.
pub proof fn law_private_swarm_hears_of_nobody(worker: usize, event: IdleEvent)
    ensures
        !(passed(worker, false, event) matches Passed::Report(Notice::Peers(w, p))),
        !(passed(worker, false, event) matches Passed::Report(Notice::HolePunch(w, a))),
{
}

} // verus!
