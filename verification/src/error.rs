//! What can go wrong while a torrent is handled.

use vstd::prelude::*;
use vstd::string::StringExecFns;

verus! {

/// The name of a torrent inside the engine.
#[derive(Clone, Copy, Debug, Eq, PartialEq, PartialOrd, Ord, Hash, Structural)]
pub struct TorrentId {
    pub value: u128,
}

#[derive(Debug)]
pub enum ActorError {
    Store(String),
    Storage(String),
    /// The torrent does not exist.
    Missing,
    /// The magnet URI is missing or invalid.
    Magnet(String),
    /// The metadata exchange failed.
    Metadata(String),
    /// The torrent has no v1-compatible peer-wire hash.
    V2PeerWire,
    /// A piece index is outside the torrent layout.
    PieceIndex,
    /// The metainfo is invalid.
    Metainfo(String),
    /// The torrent has no usable HTTP(S) or UDP tracker.
    NoTracker,
    /// The trackers returned no connectable peers.
    NoPeers,
    /// A peer session failed.
    Peer(String),
    /// A web seed failed.
    WebSeed(String),
    /// A payload path is owned by another torrent.
    PathConflict { path: String, owner: TorrentId },
    /// Torrent arithmetic overflowed.
    Arithmetic,
    /// The torrent actor was cancelled.
    Cancelled,
}

/// An error by what it says.
pub enum Fault {
    Store(Seq<char>),
    Storage(Seq<char>),
    Missing,
    Magnet(Seq<char>),
    Metadata(Seq<char>),
    V2PeerWire,
    PieceIndex,
    Metainfo(Seq<char>),
    NoTracker,
    NoPeers,
    Peer(Seq<char>),
    WebSeed(Seq<char>),
    PathConflict { path: Seq<char>, owner: TorrentId },
    Arithmetic,
    Cancelled,
}

impl ActorError {
    pub open spec fn view(&self) -> Fault {
        match *self {
            ActorError::Store(text) => Fault::Store(text@),
            ActorError::Storage(text) => Fault::Storage(text@),
            ActorError::Missing => Fault::Missing,
            ActorError::Magnet(text) => Fault::Magnet(text@),
            ActorError::Metadata(text) => Fault::Metadata(text@),
            ActorError::V2PeerWire => Fault::V2PeerWire,
            ActorError::PieceIndex => Fault::PieceIndex,
            ActorError::Metainfo(text) => Fault::Metainfo(text@),
            ActorError::NoTracker => Fault::NoTracker,
            ActorError::NoPeers => Fault::NoPeers,
            ActorError::Peer(text) => Fault::Peer(text@),
            ActorError::WebSeed(text) => Fault::WebSeed(text@),
            ActorError::PathConflict { path, owner } => Fault::PathConflict { path: path@, owner },
            ActorError::Arithmetic => Fault::Arithmetic,
            ActorError::Cancelled => Fault::Cancelled,
        }
    }

    pub fn metainfo(text: &str) -> (error: ActorError)
        ensures
            error@ == Fault::Metainfo(text@),
    {
        ActorError::Metainfo(String::from_str(text))
    }

    pub fn metadata(text: &str) -> (error: ActorError)
        ensures
            error@ == Fault::Metadata(text@),
    {
        ActorError::Metadata(String::from_str(text))
    }

    pub fn peer(text: &str) -> (error: ActorError)
        ensures
            error@ == Fault::Peer(text@),
    {
        ActorError::Peer(String::from_str(text))
    }

    pub fn web_seed(text: &str) -> (error: ActorError)
        ensures
            error@ == Fault::WebSeed(text@),
    {
        ActorError::WebSeed(String::from_str(text))
    }

    pub fn magnet(text: &str) -> (error: ActorError)
        ensures
            error@ == Fault::Magnet(text@),
    {
        ActorError::Magnet(String::from_str(text))
    }
}

/// A digit as text.
pub open spec fn digit_text(n: nat) -> Seq<char> {
    seq![('0' as u8 + n as u8) as char]
}

/// A number in base ten as text.
pub open spec fn number_text(n: nat) -> Seq<char>
    decreases n,
{
    if n < 10 {
        digit_text(n)
    } else {
        number_text(n / 10) + digit_text(n % 10)
    }
}

/// What an error says in words.
pub open spec fn fault_text(fault: Fault) -> Seq<char> {
    match fault {
        Fault::Store(text) => text,
        Fault::Storage(text) => text,
        Fault::Missing => "torrent does not exist"@,
        Fault::Magnet(text) => "magnet URI is missing or invalid: "@ + text,
        Fault::Metadata(text) => "metadata exchange failed: "@ + text,
        Fault::V2PeerWire => "torrent has no v1-compatible peer-wire hash"@,
        Fault::PieceIndex => "piece index is outside the torrent layout"@,
        Fault::Metainfo(text) => "metainfo is invalid: "@ + text,
        Fault::NoTracker => "torrent has no usable HTTP(S) or UDP tracker"@,
        Fault::NoPeers => "trackers returned no connectable peers"@,
        Fault::Peer(text) => "peer session failed: "@ + text,
        Fault::WebSeed(text) => "web seed failed: "@ + text,
        Fault::PathConflict { path, owner } => "payload path "@ + path + " is owned by torrent "@
            + number_text(owner.value as nat),
        Fault::Arithmetic => "torrent arithmetic overflow"@,
        Fault::Cancelled => "torrent actor was cancelled"@,
    }
}

fn digit(n: u128) -> (text: &'static str)
    requires
        n < 10,
    ensures
        text@ == digit_text(n as nat),
{
    proof {
        reveal_strlit("0");
        reveal_strlit("1");
        reveal_strlit("2");
        reveal_strlit("3");
        reveal_strlit("4");
        reveal_strlit("5");
        reveal_strlit("6");
        reveal_strlit("7");
        reveal_strlit("8");
        reveal_strlit("9");
    }
    let text = match n {
        0 => "0",
        1 => "1",
        2 => "2",
        3 => "3",
        4 => "4",
        5 => "5",
        6 => "6",
        7 => "7",
        8 => "8",
        _ => "9",
    };
    assert(text@ =~= digit_text(n as nat));
    text
}

/// A number in base ten.
pub fn number(n: u128) -> (text: String)
    ensures
        text@ == number_text(n as nat),
    decreases n,
{
    if n < 10 {
        return String::from_str(digit(n));
    }
    let mut text = number(n / 10);
    text.append(digit(n % 10));
    text
}

/// Two texts, one behind the other.
pub fn join(head: &str, tail: &str) -> (text: String)
    ensures
        text@ == head@ + tail@,
{
    let mut text = String::from_str(head);
    text.append(tail);
    text
}

impl ActorError {
    /// The error in words.
    pub fn message(&self) -> (text: String)
        ensures
            text@ == fault_text(self@),
    {
        match self {
            ActorError::Store(text) => text.clone(),
            ActorError::Storage(text) => text.clone(),
            ActorError::Missing => String::from_str("torrent does not exist"),
            ActorError::Magnet(text) => join("magnet URI is missing or invalid: ", text.as_str()),
            ActorError::Metadata(text) => join("metadata exchange failed: ", text.as_str()),
            ActorError::V2PeerWire => String::from_str(
                "torrent has no v1-compatible peer-wire hash",
            ),
            ActorError::PieceIndex => String::from_str(
                "piece index is outside the torrent layout",
            ),
            ActorError::Metainfo(text) => join("metainfo is invalid: ", text.as_str()),
            ActorError::NoTracker => String::from_str(
                "torrent has no usable HTTP(S) or UDP tracker",
            ),
            ActorError::NoPeers => String::from_str("trackers returned no connectable peers"),
            ActorError::Peer(text) => join("peer session failed: ", text.as_str()),
            ActorError::WebSeed(text) => join("web seed failed: ", text.as_str()),
            ActorError::PathConflict { path, owner } => {
                let mut text = join("payload path ", path.as_str());
                text.append(" is owned by torrent ");
                text.append(number(owner.value).as_str());
                text
            },
            ActorError::Arithmetic => String::from_str("torrent arithmetic overflow"),
            ActorError::Cancelled => String::from_str("torrent actor was cancelled"),
        }
    }
}

} // verus!
