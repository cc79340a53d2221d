//! Digests, and the Merkle trees that BEP 52 builds from them.

use sha1::Digest as _;
use vstd::prelude::*;

verus! {

/// What `sha1::Sha1` computes of a message.
pub uninterp spec fn sha1_of(data: Seq<u8>) -> Seq<u8>;

/// What `sha2::Sha256` computes of a message.
pub uninterp spec fn sha256_of(data: Seq<u8>) -> Seq<u8>;

/// What `openssl::sha::sha1` computes of a message.
pub uninterp spec fn openssl_sha1_of(data: Seq<u8>) -> Seq<u8>;

/// What `openssl::sha::sha256` computes of a message.
pub uninterp spec fn openssl_sha256_of(data: Seq<u8>) -> Seq<u8>;

/// `sha1::Sha1::digest`: the digest depends on the message alone.
#[verifier::external_body]
pub(crate) fn sha1_digest(data: &[u8]) -> (digest: [u8; 20])
    ensures
        digest@ == sha1_of(data@),
{
    sha1::Sha1::digest(data).into()
}

/// `sha2::Sha256::digest`: the digest depends on the message alone.
#[verifier::external_body]
pub(crate) fn sha256_digest(data: &[u8]) -> (digest: [u8; 32])
    ensures
        digest@ == sha256_of(data@),
{
    sha2::Sha256::digest(data).into()
}

/// `openssl::sha::sha1`: the digest depends on the message alone.
#[verifier::external_body]
pub(crate) fn openssl_sha1(data: &[u8]) -> (digest: [u8; 20])
    ensures
        digest@ == openssl_sha1_of(data@),
{
    openssl::sha::sha1(data)
}

/// `openssl::sha::sha256`: the digest depends on the message alone.
#[verifier::external_body]
pub(crate) fn openssl_sha256(data: &[u8]) -> (digest: [u8; 32])
    ensures
        digest@ == openssl_sha256_of(data@),
{
    openssl::sha::sha256(data)
}

/// A SHA-1 digest.
#[derive(Clone, Copy, Debug, Eq, PartialEq, PartialOrd, Ord, Hash)]
pub struct Sha1Hash {
    bytes: [u8; 20],
}

/// A SHA-256 digest.
#[derive(Clone, Copy, Debug, Eq, PartialEq, PartialOrd, Ord, Hash)]
pub struct Sha256Hash {
    bytes: [u8; 32],
}

impl View for Sha1Hash {
    type V = Seq<u8>;

    closed spec fn view(&self) -> Seq<u8> {
        self.bytes@
    }
}

impl View for Sha256Hash {
    type V = Seq<u8>;

    closed spec fn view(&self) -> Seq<u8> {
        self.bytes@
    }
}

impl Sha1Hash {
    pub fn from_bytes(bytes: [u8; 20]) -> (hash: Self)
        ensures
            hash@ == bytes@,
    {
        Self { bytes }
    }

    pub fn as_bytes(&self) -> (bytes: &[u8; 20])
        ensures
            bytes@ == self@,
    {
        &self.bytes
    }

    /// The digest that the bytes of a slice spell out, if there are twenty of them.
    pub fn from_slice(slice: &[u8]) -> (result: Option<Self>)
        ensures
            match result {
                Some(hash) => hash@ == slice@ && slice@.len() == 20,
                None => slice@.len() != 20,
            },
    {
        if slice.len() != 20 {
            return None;
        }
        let mut bytes: [u8; 20] = [0; 20];
        let mut i: usize = 0;
        while i < 20
            invariant
                slice@.len() == 20,
                i <= 20,
                forall|k: int| 0 <= k < i ==> bytes@[k] == slice@[k],
            decreases 20 - i,
        {
            bytes[i] = slice[i];
            i += 1;
        }
        assert(bytes@ =~= slice@);
        Some(Self { bytes })
    }

    /// Whether two digests hold the same bytes.
    pub fn same(&self, other: &Self) -> (result: bool)
        ensures
            result == (self@ == other@),
    {
        let mut i: usize = 0;
        while i < 20
            invariant
                i <= 20,
                forall|k: int| 0 <= k < i ==> self.bytes@[k] == other.bytes@[k],
            decreases 20 - i,
        {
            if self.bytes[i] != other.bytes[i] {
                return false;
            }
            i += 1;
        }
        assert(self.bytes@ =~= other.bytes@);
        true
    }
}

impl Sha256Hash {
    pub proof fn lemma_length(&self)
        ensures
            self@.len() == 32,
    {
    }

    pub fn from_bytes(bytes: [u8; 32]) -> (hash: Self)
        ensures
            hash@ == bytes@,
    {
        Self { bytes }
    }

    pub fn as_bytes(&self) -> (bytes: &[u8; 32])
        ensures
            bytes@ == self@,
    {
        &self.bytes
    }

    /// The digest that the bytes of a slice spell out, if there are thirty-two of them.
    pub fn from_slice(slice: &[u8]) -> (result: Option<Self>)
        ensures
            match result {
                Some(hash) => hash@ == slice@ && slice@.len() == 32,
                None => slice@.len() != 32,
            },
    {
        if slice.len() != 32 {
            return None;
        }
        let mut bytes: [u8; 32] = [0; 32];
        let mut i: usize = 0;
        while i < 32
            invariant
                slice@.len() == 32,
                i <= 32,
                forall|k: int| 0 <= k < i ==> bytes@[k] == slice@[k],
            decreases 32 - i,
        {
            bytes[i] = slice[i];
            i += 1;
        }
        assert(bytes@ =~= slice@);
        Some(Self { bytes })
    }

    /// Whether two digests hold the same bytes.
    pub fn same(&self, other: &Self) -> (result: bool)
        ensures
            result == (self@ == other@),
    {
        let mut i: usize = 0;
        while i < 32
            invariant
                i <= 32,
                forall|k: int| 0 <= k < i ==> self.bytes@[k] == other.bytes@[k],
            decreases 32 - i,
        {
            if self.bytes[i] != other.bytes[i] {
                return false;
            }
            i += 1;
        }
        assert(self.bytes@ =~= other.bytes@);
        true
    }
}

/// Digests as byte strings.
pub open spec fn digests(hashes: Seq<Sha256Hash>) -> Seq<Seq<u8>> {
    Seq::new(hashes.len(), |i: int| hashes[i]@)
}

/// The parent of two nodes.
pub open spec fn pair_of(left: Seq<u8>, right: Seq<u8>) -> Seq<u8> {
    sha256_of(left + right)
}

/// The root of a tree of the given height whose leaves are all zero.
pub open spec fn zero_of(layer: nat) -> Seq<u8>
    decreases layer,
{
    if layer == 0 {
        Seq::new(32, |i: int| 0u8)
    } else {
        pair_of(zero_of((layer - 1) as nat), zero_of((layer - 1) as nat))
    }
}

/// The layer above: each two neighbours become their parent.
pub open spec fn parents(nodes: Seq<Seq<u8>>) -> Seq<Seq<u8>> {
    Seq::new(nodes.len() / 2, |i: int| pair_of(nodes[2 * i], nodes[2 * i + 1]))
}

/// The root above a layer, one layer at a time.
pub open spec fn root_of(nodes: Seq<Seq<u8>>) -> Seq<u8>
    decreases nodes.len(),
{
    if nodes.len() <= 1 {
        nodes[0]
    } else {
        root_of(parents(nodes))
    }
}

pub open spec fn is_power_of_two(n: nat) -> bool
    decreases n,
{
    n == 1 || (n > 1 && n % 2 == 0 && is_power_of_two(n / 2))
}

/// The least power of two that is at least `n`, where `from` is a power of two
/// not above the answer.
pub open spec fn power_of_two_from(n: nat, from: nat) -> nat
    decreases 2 * n - from,
{
    if from == 0 || from >= n {
        from
    } else {
        power_of_two_from(n, 2 * from)
    }
}

/// The least power of two that is at least `n`.
pub open spec fn next_power_of_two(n: nat) -> nat {
    power_of_two_from(n, 1)
}

/// The exponent of the largest power of two not above `n`.
pub open spec fn floor_log2(n: nat) -> nat
    decreases n,
{
    if n <= 1 {
        0
    } else {
        1 + floor_log2(n / 2)
    }
}

/// A layer filled up to `width` nodes.
pub open spec fn padded(layer: Seq<Seq<u8>>, width: nat, filler: Seq<u8>) -> Seq<Seq<u8>> {
    Seq::new(width, |i: int| if i < layer.len() { layer[i] } else { filler })
}

/// The root of the tree above a layer of nodes that stand `base_layer` levels
/// above the leaves. The layer is filled up with the roots of zero subtrees.
pub open spec fn layer_root(layer: Seq<Seq<u8>>, base_layer: nat) -> Seq<u8> {
    let least = if layer.len() == 0 {
        1
    } else {
        layer.len()
    };
    root_of(padded(layer, next_power_of_two(least), zero_of(base_layer)))
}

pub proof fn lemma_power_of_two_from(n: nat, from: nat)
    requires
        is_power_of_two(from),
    ensures
        is_power_of_two(power_of_two_from(n, from)),
        power_of_two_from(n, from) >= n,
        power_of_two_from(n, from) >= from,
        from <= n ==> power_of_two_from(n, from) < 2 * n || power_of_two_from(n, from) == from,
    decreases 2 * n - from,
{
    if from < n {
        assert((2 * from) / 2 == from);
        lemma_power_of_two_from(n, 2 * from);
    }
}

/// The least power of two at or above `n`, computed.
pub fn round_up_to_power_of_two(n: usize) -> (width: usize)
    requires
        0 < n <= usize::MAX / 2,
    ensures
        width == next_power_of_two(n as nat),
        is_power_of_two(width as nat),
        n <= width < 2 * n,
{
    let mut width: usize = 1;
    proof {
        lemma_power_of_two_from(n as nat, 1);
    }
    while width < n
        invariant
            0 < n <= usize::MAX / 2,
            0 < width,
            is_power_of_two(width as nat),
            width < 2 * n,
            power_of_two_from(n as nat, width as nat) == next_power_of_two(n as nat),
        decreases 2 * n - width,
    {
        assert((2 * width) as nat / 2 == width as nat);
        width = width * 2;
    }
    width
}

/// The exponent of the largest power of two not above `n`, computed.
pub fn ilog2(n: u32) -> (exponent: u32)
    requires
        n > 0,
    ensures
        exponent == floor_log2(n as nat),
        exponent <= n,
{
    let mut rest: u32 = n;
    let mut exponent: u32 = 0;
    while rest > 1
        invariant
            0 < rest <= n,
            exponent + rest <= n,
            exponent + floor_log2(rest as nat) == floor_log2(n as nat),
        decreases rest,
    {
        rest = rest / 2;
        exponent = exponent + 1;
    }
    exponent
}

/// The exponent of the largest power of two not above a size, computed.
pub fn ilog2_usize(n: usize) -> (exponent: u32)
    requires
        n > 0,
    ensures
        exponent == floor_log2(n as nat),
        exponent <= 64,
{
    let mut rest: usize = n;
    let mut exponent: u32 = 0;
    proof {
        reveal_with_fuel(pow2, 65);
        lemma_log_bound(n as nat, 64);
    }
    while rest > 1
        invariant
            0 < rest,
            exponent + floor_log2(rest as nat) == floor_log2(n as nat),
            floor_log2(n as nat) <= 64,
        decreases rest,
    {
        rest = rest / 2;
        exponent = exponent + 1;
    }
    exponent
}

/// A number below a power of two has a smaller logarithm.
proof fn lemma_log_bound(n: nat, k: nat)
    requires
        n < pow2(k),
    ensures
        floor_log2(n) <= k,
    decreases k,
{
    if n > 1 {
        lemma_log_bound(n / 2, (k - 1) as nat);
    }
}

/// A power of two.
pub open spec fn pow2(k: nat) -> nat
    decreases k,
{
    if k == 0 {
        1
    } else {
        2 * pow2((k - 1) as nat)
    }
}

/// Whether a number is a power of two.
pub fn power_of_two(n: u32) -> (result: bool)
    ensures
        result == is_power_of_two(n as nat),
{
    let mut rest: u32 = n;
    while rest > 1
        invariant
            is_power_of_two(n as nat) == is_power_of_two(rest as nat),
        decreases rest,
    {
        if rest % 2 != 0 {
            return false;
        }
        rest = rest / 2;
    }
    rest == 1
}

/// The parent of two nodes: the digest of their concatenation.
pub fn hash_pair(left: Sha256Hash, right: Sha256Hash) -> (hash: Sha256Hash)
    ensures
        hash@ == pair_of(left@, right@),
{
    let mut message: Vec<u8> = Vec::new();
    message.extend_from_slice(left.as_bytes());
    message.extend_from_slice(right.as_bytes());
    assert(message@ =~= left@ + right@);
    Sha256Hash::from_bytes(sha256_digest(message.as_slice()))
}

/// The root of a tree of zero leaves.
pub fn zero_hash(layer: u32) -> (hash: Sha256Hash)
    ensures
        hash@ == zero_of(layer as nat),
{
    let mut hash = Sha256Hash::from_bytes([0; 32]);
    assert(hash@ =~= zero_of(0));
    let mut level: u32 = 0;
    while level < layer
        invariant
            level <= layer,
            hash@ == zero_of(level as nat),
        decreases layer - level,
    {
        hash = hash_pair(hash, hash);
        level = level + 1;
    }
    hash
}

/// The layer above a layer.
pub fn reduce_layer(nodes: &Vec<Sha256Hash>) -> (above: Vec<Sha256Hash>)
    ensures
        digests(above@) == parents(digests(nodes@)),
{
    let mut above: Vec<Sha256Hash> = Vec::new();
    let mut i: usize = 0;
    while i < nodes.len() / 2
        invariant
            i <= nodes@.len() / 2,
            above@.len() == i,
            forall|k: int|
                0 <= k < i ==> (#[trigger] above@[k])@ == pair_of(
                    nodes@[2 * k]@,
                    nodes@[2 * k + 1]@,
                ),
        decreases nodes@.len() / 2 - i,
    {
        above.push(hash_pair(nodes[2 * i], nodes[2 * i + 1]));
        i += 1;
    }
    assert(digests(above@) =~= parents(digests(nodes@)));
    above
}

/// The root above a layer of nodes that stand `base_layer` levels above the
/// leaves of the tree.
pub fn merkle_root_from_layer(layer: &[Sha256Hash], base_layer: u32) -> (root: Sha256Hash)
    requires
        layer@.len() <= usize::MAX / 2,
    ensures
        root@ == layer_root(digests(layer@), base_layer as nat),
{
    let zero = zero_hash(base_layer);
    let least: usize = if layer.len() == 0 { 1 } else { layer.len() };
    let width: usize = round_up_to_power_of_two(least);
    let mut hashes: Vec<Sha256Hash> = Vec::new();
    let mut i: usize = 0;
    while i < width
        invariant
            i <= width,
            layer@.len() <= width,
            hashes@.len() == i,
            zero@ == zero_of(base_layer as nat),
            forall|k: int|
                0 <= k < i ==> (#[trigger] hashes@[k])@ == (if k < layer@.len() {
                    layer@[k]@
                } else {
                    zero@
                }),
        decreases width - i,
    {
        if i < layer.len() {
            hashes.push(layer[i]);
        } else {
            hashes.push(zero);
        }
        i += 1;
    }
    assert(digests(hashes@) =~= padded(digests(layer@), width as nat, zero@));
    while hashes.len() > 1
        invariant
            is_power_of_two(hashes@.len()),
            root_of(digests(hashes@)) == layer_root(digests(layer@), base_layer as nat),
        decreases hashes@.len(),
    {
        hashes = reduce_layer(&hashes);
        assert(digests(hashes@).len() == hashes@.len());
    }
    hashes[0]
}

} // verus!
