//! The beginning of a connection: how it is made, who may come in, and what is
//! learned of a peer before it unchokes.

use crate::address::{IpAddress, PeerId, SocketAddress};
use crate::bencode::bytes_equal;
use crate::bitfield::{empty_bitfield, has_bit, set_bit};
use crate::error::{join, ActorError, Fault};
use crate::choke::TorrentState;
use crate::hash::Sha1Hash;
use crate::num::{div_ceil_of, div_ceil_usize, lemma_div_ceil, max_of, min_of};
use crate::rates::BLOCK_BYTES;
use crate::serve::{HolePunchKind, HolePunchMessage};
use crate::swarm_peers::is_unspecified;
use vstd::prelude::*;
use vstd::slice::slice_to_vec;
use vstd::string::StringExecFns;

verus! {

/// Whether connections are encrypted.
#[derive(Clone, Copy, Debug, Eq, PartialEq, Structural)]
pub enum EncryptionPolicy {
    Disabled,
    PlaintextPreferred,
    EncryptedPreferred,
    Required,
}

/// One way to connect to a peer.
#[derive(Clone, Copy, Debug, Eq, PartialEq, Structural)]
pub enum ConnectionAttempt {
    Encrypted,
    Plain,
    Utp,
}

/// The ways to connect to a peer, in the order in which they are tried.
pub open spec fn attempts_of(policy: EncryptionPolicy, utp: bool) -> Seq<ConnectionAttempt> {
    let first = match policy {
        EncryptionPolicy::Disabled => seq![ConnectionAttempt::Plain],
        EncryptionPolicy::PlaintextPreferred => seq![
            ConnectionAttempt::Plain,
            ConnectionAttempt::Encrypted,
        ],
        EncryptionPolicy::EncryptedPreferred => seq![
            ConnectionAttempt::Encrypted,
            ConnectionAttempt::Plain,
        ],
        EncryptionPolicy::Required => seq![ConnectionAttempt::Encrypted],
    };
    if utp && policy != EncryptionPolicy::Required {
        first.push(ConnectionAttempt::Utp)
    } else {
        first
    }
}

pub fn connection_attempts(policy: EncryptionPolicy, utp: bool) -> (attempts: Vec<
    ConnectionAttempt,
>)
    ensures
        attempts@ == attempts_of(policy, utp),
{
    let mut attempts: Vec<ConnectionAttempt> = Vec::new();
    match policy {
        EncryptionPolicy::Disabled => {
            attempts.push(ConnectionAttempt::Plain);
        },
        EncryptionPolicy::PlaintextPreferred => {
            attempts.push(ConnectionAttempt::Plain);
            attempts.push(ConnectionAttempt::Encrypted);
        },
        EncryptionPolicy::EncryptedPreferred => {
            attempts.push(ConnectionAttempt::Encrypted);
            attempts.push(ConnectionAttempt::Plain);
        },
        EncryptionPolicy::Required => {
            attempts.push(ConnectionAttempt::Encrypted);
        },
    }
    if utp && policy != EncryptionPolicy::Required {
        attempts.push(ConnectionAttempt::Utp);
    }
    assert(attempts@ =~= attempts_of(policy, utp));
    attempts
}

/// The ways to connect to a candidate. One that is to be reached through a hole
/// punch is tried over UDP alone.
pub fn dial_attempts(policy: EncryptionPolicy, utp: bool, force_utp: bool) -> (result: Result<
    Vec<ConnectionAttempt>,
    ActorError,
>)
    ensures
        match result {
            Ok(attempts) => if force_utp {
                utp && attempts@ == seq![ConnectionAttempt::Utp]
            } else {
                attempts@ == attempts_of(policy, utp)
            },
            Err(error) => force_utp && !utp && error@ == Fault::Peer(
                "hole punch requires a uTP endpoint"@,
            ),
        },
{
    if !force_utp {
        return Ok(connection_attempts(policy, utp));
    }
    if !utp {
        return Err(ActorError::peer("hole punch requires a uTP endpoint"));
    }
    let mut attempts: Vec<ConnectionAttempt> = Vec::new();
    attempts.push(ConnectionAttempt::Utp);
    assert(attempts@ =~= seq![ConnectionAttempt::Utp]);
    Ok(attempts)
}

/// The position of the attempt in the clear at or after `from`, or the length.
pub open spec fn plain_at(attempts: Seq<ConnectionAttempt>, from: int) -> int
    decreases attempts.len() - from,
{
    if from < 0 || from >= attempts.len() || attempts[from] == ConnectionAttempt::Plain {
        from
    } else {
        plain_at(attempts, from + 1)
    }
}

/// Which of the attempts is reported once all of them have failed: the one in
/// the clear, and the first where there was none.
pub open spec fn reported_of(attempts: Seq<ConnectionAttempt>) -> int {
    if plain_at(attempts, 0) < attempts.len() {
        plain_at(attempts, 0)
    } else {
        0
    }
}

pub fn reported_attempt(attempts: &Vec<ConnectionAttempt>) -> (at: usize)
    ensures
        at == reported_of(attempts@),
        attempts@.len() > 0 ==> at < attempts@.len(),
{
    let mut i: usize = 0;
    while i < attempts.len()
        invariant
            i <= attempts@.len(),
            plain_at(attempts@, 0) == plain_at(attempts@, i as int),
        decreases attempts@.len() - i,
    {
        if attempts[i] == ConnectionAttempt::Plain {
            return i;
        }
        i += 1;
    }
    0
}

/// A failure in the clear is the one that is reported, unless encryption is
/// required.
pub proof fn law_plain_failures_are_reported(policy: EncryptionPolicy, utp: bool)
    ensures
        ({
            let attempts = attempts_of(policy, utp);
            let at = reported_of(attempts);
            &&& 0 <= at < attempts.len()
            &&& attempts[at] == if policy == EncryptionPolicy::Required {
                ConnectionAttempt::Encrypted
            } else {
                ConnectionAttempt::Plain
            }
        }),
{
    reveal_with_fuel(plain_at, 4);
}

/// Where encryption is required, nothing is ever tried in the clear.
pub proof fn law_required_encryption_is_kept(utp: bool, i: int)
    requires
        0 <= i < attempts_of(EncryptionPolicy::Required, utp).len(),
    ensures
        attempts_of(EncryptionPolicy::Required, utp)[i] == ConnectionAttempt::Encrypted,
{
}

/// What a handshake in the clear begins with.
pub open spec fn is_plain_prefix(prefix: Seq<u8>) -> bool {
    prefix == seq![0x13u8] + vstd::utf8::encode_utf8("BitTorrent protocol"@)
}

fn begins_plainly(prefix: &[u8]) -> (result: bool)
    ensures
        result == is_plain_prefix(prefix@),
{
    let mut expected: Vec<u8> = Vec::new();
    expected.push(0x13);
    expected.extend_from_slice("BitTorrent protocol".as_bytes());
    assert(expected@ =~= seq![0x13u8] + vstd::utf8::encode_utf8("BitTorrent protocol"@));
    bytes_equal(prefix, expected.as_slice())
}

/// Whether an incoming connection begins in the clear, if it may come in.
pub fn admit_prefix(prefix: &[u8], policy: EncryptionPolicy) -> (result: Result<bool, ActorError>)
    ensures
        match result {
            Ok(plain) => plain == is_plain_prefix(prefix@) && (if plain {
                policy != EncryptionPolicy::Required
            } else {
                policy != EncryptionPolicy::Disabled
            }),
            Err(error) => if is_plain_prefix(prefix@) {
                policy == EncryptionPolicy::Required && error@ == Fault::Peer(
                    "plaintext peer rejected by encryption policy"@,
                )
            } else {
                policy == EncryptionPolicy::Disabled && error@ == Fault::Peer(
                    "encrypted peer rejected by encryption policy"@,
                )
            },
        },
{
    if begins_plainly(prefix) {
        if policy == EncryptionPolicy::Required {
            return Err(ActorError::peer("plaintext peer rejected by encryption policy"));
        }
        return Ok(true);
    }
    if policy == EncryptionPolicy::Disabled {
        return Err(ActorError::peer("encrypted peer rejected by encryption policy"));
    }
    Ok(false)
}

/// Checks who is on the other side of an incoming connection, and that the
/// stored bitfield fits the torrent it asks for.
pub fn admit_peer(remote: &PeerId, own: &PeerId, bitfield_bytes: usize, pieces: usize) -> (result:
    Result<(), ActorError>)
    ensures
        match result {
            Ok(()) => *remote != *own && bitfield_bytes == div_ceil_of(pieces as int, 8),
            Err(error) => if *remote == *own {
                error@ == Fault::Peer("rejected a connection from this daemon to itself"@)
            } else {
                bitfield_bytes != div_ceil_of(pieces as int, 8) && error@ == Fault::Peer(
                    "stored completion bitfield has the wrong length"@,
                )
            },
        },
{
    if remote.same(own) {
        return Err(ActorError::peer("rejected a connection from this daemon to itself"));
    }
    if bitfield_bytes != div_ceil_usize(pieces, 8) {
        return Err(ActorError::peer("stored completion bitfield has the wrong length"));
    }
    Ok(())
}

/// Checks that an encrypted peer asks for the torrent that its key was made for.
pub fn check_selected_hash(asked: &Sha1Hash, selected: &Sha1Hash) -> (result: Result<
    (),
    ActorError,
>)
    ensures
        match result {
            Ok(()) => asked@ == selected@,
            Err(error) => asked@ != selected@ && error@ == Fault::Peer(
                "encrypted peer handshake changed its info hash"@,
            ),
        },
{
    if asked.same(selected) {
        Ok(())
    } else {
        Err(ActorError::peer("encrypted peer handshake changed its info hash"))
    }
}

/// What this daemon says of itself in a handshake: it takes extensions, and it
/// has DHT nodes to share on connections that it makes.
pub fn handshake_flags(outgoing: bool) -> (reserved: [u8; 8])
    ensures
        reserved@ == seq![0u8, 0, 0, 0, 0, 0x10, 0, if outgoing {
            1u8
        } else {
            0u8
        }],
{
    let last: u8 = if outgoing { 1 } else { 0 };
    let reserved: [u8; 8] = [0, 0, 0, 0, 0, 0x10, 0, last];
    assert(reserved@ =~= seq![0u8, 0, 0, 0, 0, 0x10, 0, last]);
    reserved
}

/// What a peer is told when extensions are negotiated.
#[derive(Clone, Copy, Debug, Eq, PartialEq)]
pub struct ExtensionGreeting {
    /// How long the metadata is that the peer may ask for.
    pub metadata_size: Option<usize>,
}

/// What a peer is told of extensions once a connection is to be downloaded
/// over: nothing unless the peer takes them and may pass peers on, and nothing
/// of metadata where the peer connected by itself.
pub fn extension_greeting(
    allow_pex: bool,
    reserved: [u8; 8],
    outbound: bool,
    metadata_size: Option<usize>,
) -> (greeting: Option<ExtensionGreeting>)
    ensures
        greeting == (if allow_pex && reserved@[5] & 0x10u8 != 0 {
            Some(
                ExtensionGreeting {
                    metadata_size: if outbound {
                        metadata_size
                    } else {
                        None
                    },
                },
            )
        } else {
            None
        }),
{
    if allow_pex && reserved[5] & 0x10 != 0 {
        Some(
            ExtensionGreeting {
                metadata_size: if outbound {
                    metadata_size
                } else {
                    None
                },
            },
        )
    } else {
        None
    }
}

/// How long a frame of an incoming peer may be: long enough for a block, and
/// for metadata up to its limit.
pub fn incoming_frame_limit(metainfo_limit: usize) -> (bytes: usize)
    ensures
        bytes == min_of(
            max_of(metainfo_limit as int, BLOCK_BYTES as int) + 64,
            usize::MAX as int,
        ),
{
    let longest: usize = if metainfo_limit > BLOCK_BYTES {
        metainfo_limit
    } else {
        BLOCK_BYTES
    };
    longest.saturating_add(64)
}

/// Whether a peer that connected by itself is handed to the torrent's swarm.
pub fn joins_swarm(state: TorrentState, routed: bool) -> (result: bool)
    ensures
        result == (state is Downloading && routed),
{
    state == TorrentState::Downloading && routed
}

/// Whether uploads on a connection have to be repaid: not once the torrent is
/// complete.
pub fn is_reciprocal(state: TorrentState) -> (result: bool)
    ensures
        result == !(state is Seeding),
{
    state != TorrentState::Seeding
}

/// Checks that an outgoing connection did not reach this daemon itself.
pub fn check_not_self(remote: &PeerId, own: &PeerId) -> (result: Result<(), ActorError>)
    ensures
        match result {
            Ok(()) => *remote != *own,
            Err(error) => *remote == *own && error@ == Fault::Peer(
                "candidate address belongs to this daemon"@,
            ),
        },
{
    if remote.same(own) {
        Err(ActorError::peer("candidate address belongs to this daemon"))
    } else {
        Ok(())
    }
}

/// Whether an address that a peer passed on can be connected to.
pub open spec fn is_reachable(address: SocketAddress) -> bool {
    address.port != 0 && !is_unspecified(address.ip)
}

/// The addresses that can be connected to, in order.
pub open spec fn reachable(addresses: Seq<SocketAddress>) -> Seq<SocketAddress>
    decreases addresses.len(),
{
    if addresses.len() == 0 {
        Seq::empty()
    } else {
        let before = reachable(addresses.drop_last());
        if is_reachable(addresses.last()) {
            before.push(addresses.last())
        } else {
            before
        }
    }
}

/// The addresses of a peer exchange that can be connected to.
pub fn pex_addresses(added: &Vec<SocketAddress>) -> (addresses: Vec<SocketAddress>)
    ensures
        addresses@ == reachable(added@),
{
    let mut addresses: Vec<SocketAddress> = Vec::new();
    let mut i: usize = 0;
    assert(added@.take(0) =~= Seq::empty());
    while i < added.len()
        invariant
            i <= added@.len(),
            addresses@ == reachable(added@.take(i as int)),
        decreases added@.len() - i,
    {
        proof {
            assert(added@.take(i + 1).drop_last() =~= added@.take(i as int));
            assert(added@.take(i + 1).last() == added@[i as int]);
        }
        let address = added[i];
        if address.port != 0 && address.ip != IpAddress::V4(0) && address.ip != IpAddress::V6(0) {
            addresses.push(address);
        }
        i += 1;
    }
    assert(added@.take(added@.len() as int) =~= added@);
    addresses
}

/// Whether a bitfield sets a bit that stands for no piece.
pub open spec fn sets_spare_bits(bits: Seq<u8>, pieces: int) -> bool {
    exists|i: int| pieces <= i < bits.len() * 8 && #[trigger] has_bit(bits, i)
}

/// What is wrong with a bitfield, if anything.
pub open spec fn bitfield_fault(bits: Seq<u8>, pieces: int) -> Option<Fault> {
    if bits.len() != div_ceil_of(pieces, 8) {
        Some(Fault::Peer("peer bitfield has wrong length"@))
    } else if sets_spare_bits(bits, pieces) {
        Some(Fault::Peer("peer bitfield sets reserved trailing bits"@))
    } else {
        None
    }
}

proof fn lemma_spare_bits(last: u8, used: u8, k: u8)
    by (bit_vector)
    requires
        used < 8,
        k < 8,
        used <= k,
        last & (0xffu8 >> used) == 0,
    ensures
        last & (0x80u8 >> k) == 0,
{
}

proof fn lemma_some_spare_bit(last: u8, used: u8)
    by (bit_vector)
    requires
        0 < used < 8,
        last & (0xffu8 >> used) != 0,
    ensures
        (used <= 1 && last & (0x80u8 >> 1u8) != 0) || (used <= 2 && last & (0x80u8 >> 2u8) != 0)
            || (used <= 3 && last & (0x80u8 >> 3u8) != 0) || (used <= 4 && last & (0x80u8 >> 4u8)
            != 0) || (used <= 5 && last & (0x80u8 >> 5u8) != 0) || (used <= 6 && last & (0x80u8
            >> 6u8) != 0) || (used <= 7 && last & (0x80u8 >> 7u8) != 0),
{
}

fn check_bitfield(bits: &[u8], pieces: usize) -> (result: Result<(), ActorError>)
    ensures
        match result {
            Ok(()) => bitfield_fault(bits@, pieces as int) is None,
            Err(error) => bitfield_fault(bits@, pieces as int) == Some(error@),
        },
{
    if bits.len() != div_ceil_usize(pieces, 8) {
        return Err(ActorError::peer("peer bitfield has wrong length"));
    }
    let used: u8 = (pieces % 8) as u8;
    if used != 0 {
        let at: usize = bits.len() - 1;
        let last: u8 = bits[at];
        if last & (0xffu8 >> used) != 0 {
            proof {
                lemma_some_spare_bit(last, used);
                let base = at as int * 8;
                assert(base + used == pieces);
                if used <= 1 && last & (0x80u8 >> 1u8) != 0 {
                    assert(has_bit(bits@, base + 1));
                } else if used <= 2 && last & (0x80u8 >> 2u8) != 0 {
                    assert(has_bit(bits@, base + 2));
                } else if used <= 3 && last & (0x80u8 >> 3u8) != 0 {
                    assert(has_bit(bits@, base + 3));
                } else if used <= 4 && last & (0x80u8 >> 4u8) != 0 {
                    assert(has_bit(bits@, base + 4));
                } else if used <= 5 && last & (0x80u8 >> 5u8) != 0 {
                    assert(has_bit(bits@, base + 5));
                } else if used <= 6 && last & (0x80u8 >> 6u8) != 0 {
                    assert(has_bit(bits@, base + 6));
                } else {
                    assert(has_bit(bits@, base + 7));
                }
                assert(sets_spare_bits(bits@, pieces as int));
            }
            return Err(ActorError::peer("peer bitfield sets reserved trailing bits"));
        }
        proof {
            assert forall|i: int| pieces <= i < bits@.len() * 8 implies !#[trigger] has_bit(
                bits@,
                i,
            ) by {
                assert(i / 8 == at);
                lemma_spare_bits(last, used, (i % 8) as u8);
            }
        }
    }
    Ok(())
}

/// What is learned of a peer before it unchokes.
#[derive(Debug)]
pub struct Reception {
    pub piece_count: usize,
    /// The pieces that the peer said it has.
    pub available: Option<Vec<u8>>,
    /// The peers that it passed on.
    pub peers: Vec<SocketAddress>,
}

pub open spec fn bits_view(bits: Option<Vec<u8>>) -> Option<Seq<u8>> {
    match bits {
        Some(bits) => Some(bits@),
        None => None,
    }
}

impl Reception {
    /// Whether a bitfield that is there has room for every piece.
    pub open spec fn wf(&self) -> bool {
        self.available is Some ==> self.available->0@.len() == div_ceil_of(
            self.piece_count as int,
            8,
        )
    }

    pub fn new(piece_count: usize) -> (reception: Self)
        ensures
            reception.wf(),
            reception.piece_count == piece_count,
            reception.available is None,
            reception.peers@.len() == 0,
    {
        Self { piece_count, available: None, peers: Vec::new() }
    }

    /// The peer sent its bitfield.
    pub fn bitfield(&mut self, bits: &[u8]) -> (result: Result<(), ActorError>)
        requires
            old(self).wf(),
        ensures
            final(self).wf(),
            final(self).piece_count == old(self).piece_count,
            final(self).peers == old(self).peers,
            match result {
                Ok(()) => bitfield_fault(bits@, old(self).piece_count as int) is None && bits_view(
                    final(self).available,
                ) == Some(bits@),
                Err(error) => bitfield_fault(bits@, old(self).piece_count as int) == Some(error@)
                    && final(self).available == old(self).available,
            },
    {
        match check_bitfield(bits, self.piece_count) {
            Ok(()) => {
                self.available = Some(slice_to_vec(bits));
                Ok(())
            },
            Err(error) => Err(error),
        }
    }

    /// The peer announced a piece.
    pub fn have(&mut self, index: u32) -> (result: Result<(), ActorError>)
        requires
            old(self).wf(),
        ensures
            final(self).wf(),
            final(self).piece_count == old(self).piece_count,
            final(self).peers == old(self).peers,
            match result {
                Ok(()) => {
                    &&& index < old(self).piece_count
                    &&& final(self).available is Some
                    &&& forall|i: int|
                        0 <= i ==> #[trigger] has_bit(final(self).available->0@, i) == (i == index
                            || (old(self).available is Some && has_bit(
                            old(self).available->0@,
                            i,
                        )))
                },
                Err(error) => {
                    &&& index >= old(self).piece_count
                    &&& error@ == Fault::Peer("peer announced a piece outside the torrent"@)
                    &&& *final(self) == *old(self)
                },
            },
    {
        let piece: usize = index as usize;
        if piece >= self.piece_count {
            return Err(ActorError::peer("peer announced a piece outside the torrent"));
        }
        let mut bits: Vec<u8> = match self.available.take() {
            Some(bits) => bits,
            None => empty_bitfield(self.piece_count),
        };
        set_bit(&mut bits, piece);
        proof {
            lemma_div_ceil(self.piece_count as int, 8);
            assert(piece as int / 8 < bits@.len());
        }
        self.available = Some(bits);
        Ok(())
    }

    /// The peer passed on addresses.
    pub fn exchange(&mut self, added: &Vec<SocketAddress>)
        requires
            old(self).wf(),
        ensures
            final(self).wf(),
            final(self).piece_count == old(self).piece_count,
            final(self).available == old(self).available,
            final(self).peers@ == old(self).peers@ + reachable(added@),
    {
        let mut more = pex_addresses(added);
        self.peers.append(&mut more);
    }

    /// The peer asks this daemon to connect to another peer, or says something
    /// else about hole punching.
    pub fn holepunch(&mut self, message: HolePunchMessage)
        requires
            old(self).wf(),
        ensures
            final(self).wf(),
            final(self).piece_count == old(self).piece_count,
            final(self).available == old(self).available,
            final(self).peers@ == (if message.kind is Connect {
                old(self).peers@.push(message.address)
            } else {
                old(self).peers@
            }),
    {
        if message.kind == HolePunchKind::Connect {
            self.peers.push(message.address);
        }
    }

    /// What the peer has, once it unchoked: nothing, if it never said.
    pub fn finish(self) -> (result: (Vec<u8>, Vec<SocketAddress>))
        requires
            self.wf(),
        ensures
            result.0@.len() == div_ceil_of(self.piece_count as int, 8),
            forall|i: int|
                0 <= i ==> #[trigger] has_bit(result.0@, i) == (self.available is Some && has_bit(
                    self.available->0@,
                    i,
                )),
            result.1 == self.peers,
    {
        let bits = match self.available {
            Some(bits) => bits,
            None => empty_bitfield(self.piece_count),
        };
        (bits, self.peers)
    }

    /// The connection ended before the peer unchoked.
    pub fn broken(&self, failure: Option<&String>) -> (error: ActorError)
        ensures
            error@ == Fault::Peer(
                match failure {
                    Some(text) => "peer session failed before unchoking: "@ + text@,
                    None => "peer disconnected before unchoking"@,
                },
            ),
    {
        match failure {
            Some(text) => ActorError::Peer(
                join("peer session failed before unchoking: ", text.as_str()),
            ),
            None => ActorError::peer("peer disconnected before unchoking"),
        }
    }
}

/// A peer is tried in the clear unless encryption is required, and encrypted
/// unless that is disabled, the preferred way first; over uTP at last, where that
/// is on and encryption not required.
pub proof fn law_preferred_attempt_comes_first(policy: EncryptionPolicy, utp: bool)
    ensures
        ({
            let attempts = attempts_of(policy, utp);
            &&& attempts.contains(ConnectionAttempt::Plain) <==> policy
                != EncryptionPolicy::Required
            &&& attempts.contains(ConnectionAttempt::Encrypted) <==> policy
                != EncryptionPolicy::Disabled
            &&& attempts.contains(ConnectionAttempt::Utp) <==> utp && policy
                != EncryptionPolicy::Required
            &&& attempts.contains(ConnectionAttempt::Utp) ==> attempts.last()
                == ConnectionAttempt::Utp
            &&& policy == EncryptionPolicy::PlaintextPreferred ==> attempts[0]
                == ConnectionAttempt::Plain
            &&& policy == EncryptionPolicy::EncryptedPreferred ==> attempts[0]
                == ConnectionAttempt::Encrypted
            &&& attempts.no_duplicates()
        }),
{
    let attempts = attempts_of(policy, utp);
    assert(attempts[0] == attempts[0]);
    assert(policy == EncryptionPolicy::PlaintextPreferred ==> attempts[1]
        == ConnectionAttempt::Encrypted);
    assert(policy == EncryptionPolicy::EncryptedPreferred ==> attempts[1]
        == ConnectionAttempt::Plain);
    assert(utp && policy != EncryptionPolicy::Required ==> attempts[attempts.len() - 1]
        == ConnectionAttempt::Utp);
}

/// Of the addresses that are told of, those are passed on that name a port and a
/// host, in order.
pub proof fn law_reachable_addresses_are_kept(addresses: Seq<SocketAddress>)
    ensures
        reachable(addresses) == addresses.filter(
            |address: SocketAddress|
                address.port > 0 && address.ip != IpAddress::V4(0) && address.ip != IpAddress::V6(
                    0,
                ),
        ),
    decreases addresses.len(),
{
    reveal(Seq::filter);
    if addresses.len() > 0 {
        law_reachable_addresses_are_kept(addresses.drop_last());
    }
}

/// A bitfield is taken exactly if it has a bit for every piece, no more bytes than
/// that takes, and no bit set beyond the last piece.
pub proof fn law_bitfield_fits_the_pieces(bits: Seq<u8>, pieces: usize)
    ensures
        bitfield_fault(bits, pieces as int) is None <==> {
            &&& pieces <= 8 * bits.len() < pieces + 8
            &&& forall|i: int| pieces <= i ==> !#[trigger] has_bit(bits, i)
        },
{
    if bitfield_fault(bits, pieces as int) is None {
        assert forall|i: int| pieces <= i implies !#[trigger] has_bit(bits, i) by {}
    }
}

} // verus!
