//! Magnet links with v1 and v2 exact topics.

use crate::bencode::bytes_equal;
use crate::hash::{Sha1Hash, Sha256Hash};
use crate::location::{pairs_view, parse_url, url_of, UrlParts};
use crate::metainfo::digest_view;
use crate::path::{copy_strings, texts};
use vstd::prelude::*;
use vstd::slice::slice_subrange;
use vstd::string::StrSliceExecFns;
use vstd::utf8::encode_utf8;

verus! {

#[derive(Debug, Eq, PartialEq)]
pub struct Magnet {
    pub v1_info_hash: Option<Sha1Hash>,
    pub v2_info_hash: Option<Sha256Hash>,
    pub display_name: Option<String>,
    pub trackers: Vec<String>,
    pub web_seeds: Vec<String>,
}

#[derive(Debug, Eq, PartialEq)]
pub enum MagnetError {
    /// The URI is invalid.
    Url(String),
    /// The URI scheme must be magnet.
    Scheme,
    /// The URI does not contain a supported exact topic.
    MissingTopic,
    /// An invalid v1 exact topic.
    InvalidV1,
    /// An invalid v2 multihash exact topic.
    InvalidV2,
}

/// A magnet link by its values.
pub struct MagnetModel {
    pub v1_info_hash: Option<Seq<u8>>,
    pub v2_info_hash: Option<Seq<u8>>,
    pub display_name: Option<Seq<char>>,
    pub trackers: Seq<Seq<char>>,
    pub web_seeds: Seq<Seq<char>>,
}

/// An error by what it says.
pub enum MagnetFailure {
    Url(Seq<char>),
    Scheme,
    MissingTopic,
    InvalidV1,
    InvalidV2,
}

impl Magnet {
    pub open spec fn view(&self) -> MagnetModel {
        MagnetModel {
            v1_info_hash: match self.v1_info_hash {
                Some(hash) => Some(hash@),
                None => None,
            },
            v2_info_hash: digest_view(self.v2_info_hash),
            display_name: match self.display_name {
                Some(name) => Some(name@),
                None => None,
            },
            trackers: texts(self.trackers@),
            web_seeds: texts(self.web_seeds@),
        }
    }
}

impl Clone for Magnet {
    fn clone(&self) -> (copy: Self)
        ensures
            copy@ == self@,
    {
        Magnet {
            v1_info_hash: self.v1_info_hash,
            v2_info_hash: self.v2_info_hash,
            display_name: match &self.display_name {
                Some(name) => Some(name.clone()),
                None => None,
            },
            trackers: copy_strings(&self.trackers),
            web_seeds: copy_strings(&self.web_seeds),
        }
    }
}

impl MagnetError {
    pub open spec fn view(&self) -> MagnetFailure {
        match *self {
            MagnetError::Url(text) => MagnetFailure::Url(text@),
            MagnetError::Scheme => MagnetFailure::Scheme,
            MagnetError::MissingTopic => MagnetFailure::MissingTopic,
            MagnetError::InvalidV1 => MagnetFailure::InvalidV1,
            MagnetError::InvalidV2 => MagnetFailure::InvalidV2,
        }
    }
}

/// The value of a hexadecimal digit of either case.
pub open spec fn hex_digit(byte: u8) -> Option<int> {
    if 0x30 <= byte <= 0x39 {
        Some(byte - 0x30)
    } else if 0x41 <= byte <= 0x46 {
        Some(byte - 0x41 + 10)
    } else if 0x61 <= byte <= 0x66 {
        Some(byte - 0x61 + 10)
    } else {
        None
    }
}

/// Whether a text is made of pairs of hexadecimal digits.
pub open spec fn is_hex(text: Seq<u8>) -> bool {
    text.len() % 2 == 0 && forall|i: int|
        0 <= i < text.len() ==> hex_digit(#[trigger] text[i]) is Some
}

/// The bytes that pairs of hexadecimal digits write.
pub open spec fn hex_bytes(text: Seq<u8>) -> Seq<u8> {
    Seq::new(
        text.len() / 2,
        |i: int| (hex_digit(text[2 * i])->0 * 16 + hex_digit(text[2 * i + 1])->0) as u8,
    )
}

/// `hex::decode`: succeeds exactly on pairs of hexadecimal digits of either
/// case, and then gives one byte for each pair.
#[verifier::external_body]
fn hex_decode(text: &[u8]) -> (result: Option<Vec<u8>>)
    ensures
        match result {
            Some(bytes) => is_hex(text@) && bytes@ == hex_bytes(text@),
            None => !is_hex(text@),
        },
{
    hex::decode(text).ok()
}

/// The value of a symbol of the alphabet `A` to `Z`, `2` to `7`.
pub open spec fn base32_digit(byte: u8) -> Option<int> {
    if 0x41 <= byte <= 0x5a {
        Some(byte - 0x41)
    } else if 0x32 <= byte <= 0x37 {
        Some(byte - 0x32 + 26)
    } else {
        None
    }
}

pub open spec fn is_base32(text: Seq<u8>) -> bool {
    forall|i: int| 0 <= i < text.len() ==> base32_digit(#[trigger] text[i]) is Some
}

/// The number that base-32 symbols write, the first symbol the most significant.
pub open spec fn base32_number(text: Seq<u8>) -> int
    decreases text.len(),
{
    if text.len() == 0 {
        0
    } else {
        base32_number(text.drop_last()) * 32 + base32_digit(text.last())->0
    }
}

/// The number that bytes write, the first byte the most significant.
pub open spec fn bytes_number(bytes: Seq<u8>) -> int
    decreases bytes.len(),
{
    if bytes.len() == 0 {
        0
    } else {
        bytes_number(bytes.drop_last()) * 256 + bytes.last()
    }
}

/// The twenty bytes that thirty-two base-32 symbols write.
pub open spec fn base32_bytes(text: Seq<u8>, bytes: Seq<u8>) -> bool {
    bytes.len() == 20 && bytes_number(bytes) == base32_number(text)
}

/// `data_encoding::BASE32_NOPAD.decode` on thirty-two symbols, which fill
/// whole blocks: succeeds exactly when every symbol is in the alphabet, and
/// then gives the twenty bytes that hold the same bits.
#[verifier::external_body]
fn base32_decode(text: &[u8]) -> (result: Option<Vec<u8>>)
    requires
        text@.len() == 32,
    ensures
        match result {
            Some(bytes) => is_base32(text@) && base32_bytes(text@, bytes@),
            None => !is_base32(text@),
        },
{
    data_encoding::BASE32_NOPAD.decode(text).ok()
}

/// What `multibase::decode` reads from a text, without the base it is in.
pub uninterp spec fn multibase_of(text: Seq<char>) -> Option<Seq<u8>>;

/// `multibase::decode`: the bytes, where the text names a base and is written
/// in it. They are a function of the text alone.
#[verifier::external_body]
fn multibase_decode(text: &str) -> (result: Option<Vec<u8>>)
    ensures
        match result {
            Some(bytes) => multibase_of(text@) == Some(bytes@),
            None => multibase_of(text@) is None,
        },
{
    multibase::decode(text).ok().map(|(_, bytes)| bytes)
}

pub open spec fn uppercase_byte(byte: u8) -> u8 {
    if 0x61 <= byte <= 0x7a {
        (byte - 0x20) as u8
    } else {
        byte
    }
}

/// ASCII letters in upper case, other bytes as they are.
pub open spec fn uppercase_of(bytes: Seq<u8>) -> Seq<u8> {
    Seq::new(bytes.len(), |i: int| uppercase_byte(bytes[i]))
}

/// The hash that a v1 topic gives: forty hexadecimal digits, or thirty-two
/// base-32 symbols of either case.
pub open spec fn v1_topic(text: Seq<u8>) -> Option<Seq<u8>> {
    if text.len() == 40 {
        if is_hex(text) {
            Some(hex_bytes(text))
        } else {
            None
        }
    } else if text.len() == 32 && is_base32(uppercase_of(text)) {
        Some(choose|hash: Seq<u8>| base32_bytes(uppercase_of(text), hash))
    } else {
        None
    }
}

/// Whether bytes are a multihash of a SHA-256 digest.
pub open spec fn is_multihash(bytes: Seq<u8>) -> bool {
    bytes.len() == 34 && bytes[0] == 0x12 && bytes[1] == 0x20
}

/// The bytes behind a v2 topic: sixty-eight hexadecimal digits that begin as
/// a SHA-256 multihash does, or any text in a multibase.
pub open spec fn v2_bytes(text: Seq<char>) -> Option<Seq<u8>> {
    let bytes = encode_utf8(text);
    if bytes.len() == 68 && bytes.take(4) == seq![0x31u8, 0x32u8, 0x32u8, 0x30u8] {
        if is_hex(bytes) {
            Some(hex_bytes(bytes))
        } else {
            None
        }
    } else {
        multibase_of(text)
    }
}

/// The hash that a v2 topic gives.
pub open spec fn v2_topic(text: Seq<char>) -> Option<Seq<u8>> {
    match v2_bytes(text) {
        Some(bytes) => if is_multihash(bytes) {
            Some(bytes.skip(2))
        } else {
            None
        },
        None => None,
    }
}

/// ASCII letters in upper case, computed.
fn ascii_uppercase(bytes: &[u8]) -> (upper: Vec<u8>)
    ensures
        upper@ == uppercase_of(bytes@),
{
    let mut upper: Vec<u8> = Vec::new();
    let mut i: usize = 0;
    while i < bytes.len()
        invariant
            i <= bytes@.len(),
            upper@.len() == i,
            forall|k: int| 0 <= k < i ==> upper@[k] == uppercase_byte(bytes@[k]),
        decreases bytes@.len() - i,
    {
        let byte: u8 = bytes[i];
        if 0x61 <= byte && byte <= 0x7a {
            upper.push(byte - 0x20);
        } else {
            upper.push(byte);
        }
        i += 1;
    }
    assert(upper@ =~= uppercase_of(bytes@));
    upper
}

fn parse_v1(value: &str) -> (result: Result<Sha1Hash, MagnetError>)
    ensures
        match result {
            Ok(hash) => v1_topic(encode_utf8(value@)) == Some(hash@),
            Err(error) => v1_topic(encode_utf8(value@)) is None && error is InvalidV1,
        },
{
    let bytes = value.as_bytes();
    if bytes.len() == 40 {
        return match hex_decode(bytes) {
            Some(decoded) => match Sha1Hash::from_slice(decoded.as_slice()) {
                Some(hash) => Ok(hash),
                None => Err(MagnetError::InvalidV1),
            },
            None => Err(MagnetError::InvalidV1),
        };
    }
    if bytes.len() == 32 {
        let uppercase = ascii_uppercase(bytes);
        return match base32_decode(uppercase.as_slice()) {
            Some(decoded) => {
                proof {
                    let text = uppercase@;
                    let chosen = choose|hash: Seq<u8>| base32_bytes(text, hash);
                    assert(base32_bytes(text, decoded@));
                    lemma_bytes_number_injective(chosen, decoded@);
                }
                match Sha1Hash::from_slice(decoded.as_slice()) {
                    Some(hash) => Ok(hash),
                    None => Err(MagnetError::InvalidV1),
                }
            },
            None => Err(MagnetError::InvalidV1),
        };
    }
    Err(MagnetError::InvalidV1)
}

/// The digest inside a SHA-256 multihash.
fn multihash_digest(decoded: &Vec<u8>) -> (result: Result<Sha256Hash, MagnetError>)
    ensures
        match result {
            Ok(hash) => is_multihash(decoded@) && hash@ == decoded@.skip(2),
            Err(error) => !is_multihash(decoded@) && error is InvalidV2,
        },
{
    if decoded.len() != 34 || decoded[0] != 0x12 || decoded[1] != 0x20 {
        return Err(MagnetError::InvalidV2);
    }
    let digest = slice_subrange(decoded.as_slice(), 2, decoded.len());
    assert(digest@ =~= decoded@.skip(2));
    match Sha256Hash::from_slice(digest) {
        Some(hash) => Ok(hash),
        None => Err(MagnetError::InvalidV2),
    }
}

fn parse_v2(value: &str) -> (result: Result<Sha256Hash, MagnetError>)
    ensures
        match result {
            Ok(hash) => v2_topic(value@) == Some(hash@),
            Err(error) => v2_topic(value@) is None && error is InvalidV2,
        },
{
    let bytes = value.as_bytes();
    let hexadecimal: bool = if bytes.len() == 68 {
        let head = slice_subrange(bytes, 0, 4);
        let expected: [u8; 4] = [0x31, 0x32, 0x32, 0x30];
        assert(expected@ =~= seq![0x31u8, 0x32u8, 0x32u8, 0x30u8]);
        assert(head@ =~= bytes@.take(4));
        bytes_equal(head, &expected)
    } else {
        false
    };
    let decoded = if hexadecimal {
        hex_decode(bytes)
    } else {
        multibase_decode(value)
    };
    match decoded {
        Some(decoded) => multihash_digest(&decoded),
        None => Err(MagnetError::InvalidV2),
    }
}

/// Whether a text begins with another.
pub open spec fn begins_with(text: Seq<char>, head: Seq<char>) -> bool {
    text.len() >= head.len() && text.take(head.len() as int) == head
}

/// A link after one more query pair. A later topic or name takes the place of
/// an earlier one; trackers and web seeds add up.
pub open spec fn read_pair(link: MagnetModel, key: Seq<char>, value: Seq<char>) -> Result<
    MagnetModel,
    MagnetFailure,
> {
    if key == "xt"@ && begins_with(value, "urn:btih:"@) {
        match v1_topic(encode_utf8(value.skip(9))) {
            Some(hash) => Ok(MagnetModel { v1_info_hash: Some(hash), ..link }),
            None => Err(MagnetFailure::InvalidV1),
        }
    } else if key == "xt"@ && begins_with(value, "urn:btmh:"@) {
        match v2_topic(value.skip(9)) {
            Some(hash) => Ok(MagnetModel { v2_info_hash: Some(hash), ..link }),
            None => Err(MagnetFailure::InvalidV2),
        }
    } else if key == "dn"@ {
        Ok(MagnetModel { display_name: Some(value), ..link })
    } else if key == "tr"@ {
        Ok(MagnetModel { trackers: link.trackers.push(value), ..link })
    } else if key == "ws"@ {
        Ok(MagnetModel { web_seeds: link.web_seeds.push(value), ..link })
    } else {
        Ok(link)
    }
}

pub open spec fn empty_magnet() -> MagnetModel {
    MagnetModel {
        v1_info_hash: None,
        v2_info_hash: None,
        display_name: None,
        trackers: Seq::empty(),
        web_seeds: Seq::empty(),
    }
}

/// A link after all query pairs, or the first thing that is wrong with them.
pub open spec fn read_pairs(pairs: Seq<(Seq<char>, Seq<char>)>) -> Result<
    MagnetModel,
    MagnetFailure,
>
    decreases pairs.len(),
{
    if pairs.len() == 0 {
        Ok(empty_magnet())
    } else {
        match read_pairs(pairs.drop_last()) {
            Err(failure) => Err(failure),
            Ok(link) => read_pair(link, pairs.last().0, pairs.last().1),
        }
    }
}

/// The link behind a URI that was taken apart.
pub open spec fn link_of(scheme: Seq<char>, pairs: Seq<(Seq<char>, Seq<char>)>) -> Result<
    MagnetModel,
    MagnetFailure,
> {
    if scheme != "magnet"@ {
        Err(MagnetFailure::Scheme)
    } else {
        match read_pairs(pairs) {
            Err(failure) => Err(failure),
            Ok(link) => if link.v1_info_hash is None && link.v2_info_hash is None {
                Err(MagnetFailure::MissingTopic)
            } else {
                Ok(link)
            },
        }
    }
}

/// The link that a text describes.
pub open spec fn magnet_of(input: Seq<char>) -> Result<MagnetModel, MagnetFailure> {
    match url_of(input) {
        Ok(url) => link_of(url.scheme, url.pairs),
        Err(text) => Err(MagnetFailure::Url(text)),
    }
}

/// The first bad pair decides.
proof fn lemma_read_pairs_prefix(pairs: Seq<(Seq<char>, Seq<char>)>, n: int)
    requires
        0 <= n <= pairs.len(),
    ensures
        read_pairs(pairs.take(n)) is Err ==> read_pairs(pairs) == read_pairs(pairs.take(n)),
    decreases pairs.len(),
{
    if n < pairs.len() {
        lemma_read_pairs_prefix(pairs.drop_last(), n);
        assert(pairs.drop_last().take(n) =~= pairs.take(n));
    } else {
        assert(pairs.take(n) =~= pairs);
    }
}

/// Whether a string is the given literal.
fn is_text(text: &String, literal: &str) -> (result: bool)
    ensures
        result == (text@ == literal@),
{
    *text == String::from_str(literal)
}

/// The rest of a string behind a given beginning.
fn strip<'a>(text: &'a String, head: &str) -> (result: Option<&'a str>)
    ensures
        match result {
            Some(rest) => begins_with(text@, head@) && rest@ == text@.skip(head@.len() as int),
            None => !begins_with(text@, head@),
        },
{
    let length: usize = text.as_str().unicode_len();
    let wanted: usize = head.unicode_len();
    if length < wanted {
        return None;
    }
    let front = String::from_str(text.as_str().substring_char(0, wanted));
    assert(front@ =~= text@.take(wanted as int));
    if !is_text(&front, head) {
        return None;
    }
    let rest = text.as_str().substring_char(wanted, length);
    assert(rest@ =~= text@.skip(wanted as int));
    Some(rest)
}

impl Magnet {
    /// The text of a link is the scheme `magnet` and a query. Exact topics in
    /// unknown formats and unknown keys are passed over.
    pub fn parse(input: &str) -> (result: Result<Self, MagnetError>)
        ensures
            match result {
                Ok(magnet) => magnet_of(input@) == Ok::<MagnetModel, MagnetFailure>(magnet@),
                Err(error) => magnet_of(input@) == Err::<MagnetModel, MagnetFailure>(error@),
            },
    {
        match parse_url(input) {
            Ok(parts) => Self::from_parts(&parts),
            Err(text) => Err(MagnetError::Url(text)),
        }
    }

    /// A link from a URI that was taken apart.
    pub fn from_parts(parts: &UrlParts) -> (result: Result<Self, MagnetError>)
        ensures
            match result {
                Ok(magnet) => link_of(parts.scheme@, pairs_view(parts.pairs@)) == Ok::<
                    MagnetModel,
                    MagnetFailure,
                >(magnet@),
                Err(error) => link_of(parts.scheme@, pairs_view(parts.pairs@)) == Err::<
                    MagnetModel,
                    MagnetFailure,
                >(error@),
            },
    {
        if !is_text(&parts.scheme, "magnet") {
            return Err(MagnetError::Scheme);
        }
        let ghost pairs = pairs_view(parts.pairs@);
        let mut magnet = Self {
            v1_info_hash: None,
            v2_info_hash: None,
            display_name: None,
            trackers: Vec::new(),
            web_seeds: Vec::new(),
        };
        let mut i: usize = 0;
        proof {
            assert(pairs.take(0) =~= Seq::empty());
            assert(magnet@.trackers =~= Seq::empty());
            assert(magnet@.web_seeds =~= Seq::empty());
        }
        while i < parts.pairs.len()
            invariant
                pairs == pairs_view(parts.pairs@),
                parts.scheme@ == "magnet"@,
                i <= parts.pairs@.len(),
                read_pairs(pairs.take(i as int)) == Ok::<MagnetModel, MagnetFailure>(magnet@),
            decreases parts.pairs@.len() - i,
        {
            let ghost before = magnet@;
            let ghost done = pairs.take(i as int);
            let ghost next = pairs.take(i + 1);
            proof {
                assert(next.drop_last() =~= done);
                assert(next.last() == pairs[i as int]);
                lemma_read_pairs_prefix(pairs, i + 1);
                reveal_strlit("urn:btih:");
                reveal_strlit("urn:btmh:");
                reveal_strlit("xt");
                reveal_strlit("dn");
                reveal_strlit("tr");
                reveal_strlit("ws");
            }
            let key = &parts.pairs[i].0;
            let value = &parts.pairs[i].1;
            let exact: bool = is_text(key, "xt");
            let v1 = if exact {
                strip(value, "urn:btih:")
            } else {
                None
            };
            let v2 = if exact {
                strip(value, "urn:btmh:")
            } else {
                None
            };
            if let Some(topic) = v1 {
                match parse_v1(topic) {
                    Ok(hash) => magnet.v1_info_hash = Some(hash),
                    Err(error) => {
                        return Err(error);
                    },
                }
            } else if let Some(topic) = v2 {
                match parse_v2(topic) {
                    Ok(hash) => magnet.v2_info_hash = Some(hash),
                    Err(error) => {
                        return Err(error);
                    },
                }
            } else if is_text(key, "dn") {
                magnet.display_name = Some(value.clone());
            } else if is_text(key, "tr") {
                magnet.trackers.push(value.clone());
                assert(magnet@.trackers =~= before.trackers.push(value@));
            } else if is_text(key, "ws") {
                magnet.web_seeds.push(value.clone());
                assert(magnet@.web_seeds =~= before.web_seeds.push(value@));
            }
            i += 1;
        }
        assert(pairs.take(pairs.len() as int) =~= pairs);
        if magnet.v1_info_hash.is_none() && magnet.v2_info_hash.is_none() {
            return Err(MagnetError::MissingTopic);
        }
        Ok(magnet)
    }
}

/// Bytes of one length are told apart by the number they write.
pub proof fn lemma_bytes_number_injective(a: Seq<u8>, b: Seq<u8>)
    requires
        a.len() == b.len(),
        bytes_number(a) == bytes_number(b),
    ensures
        a == b,
    decreases a.len(),
{
    if a.len() > 0 {
        let x = bytes_number(a.drop_last());
        let y = bytes_number(b.drop_last());
        assert(x * 256 + a.last() == y * 256 + b.last());
        assert(x == y && a.last() == b.last());
        lemma_bytes_number_injective(a.drop_last(), b.drop_last());
        assert(a =~= a.drop_last().push(a.last()));
        assert(b =~= b.drop_last().push(b.last()));
    } else {
        assert(a =~= b);
    }
}

/// A later tracker never displaces an earlier one: the trackers of a link are
/// those of its query, in order.
pub proof fn law_trackers_keep_order(
    pairs: Seq<(Seq<char>, Seq<char>)>,
    more: (Seq<char>, Seq<char>),
)
    requires
        read_pairs(pairs) is Ok,
        read_pairs(pairs.push(more)) is Ok,
    ensures
        read_pairs(pairs.push(more))->Ok_0.trackers == (if more.0 == "tr"@ {
            read_pairs(pairs)->Ok_0.trackers.push(more.1)
        } else {
            read_pairs(pairs)->Ok_0.trackers
        }),
{
    reveal_strlit("xt");
    reveal_strlit("tr");
    reveal_strlit("dn");
    reveal_strlit("ws");
    assert(pairs.push(more).drop_last() =~= pairs);
    assert("xt"@[0] != "tr"@[0]);
    assert("dn"@[0] != "tr"@[0]);
    assert("ws"@[0] != "tr"@[0]);
}

/// A link that is accepted names the torrent by at least one hash, and a v2
/// hash has thirty-two bytes.
pub proof fn law_accepted_link_has_topic(scheme: Seq<char>, pairs: Seq<(Seq<char>, Seq<char>)>)
    requires
        link_of(scheme, pairs) is Ok,
    ensures
        ({
            let link = link_of(scheme, pairs)->Ok_0;
            &&& link.v1_info_hash is Some || link.v2_info_hash is Some
            &&& link.v2_info_hash is Some ==> link.v2_info_hash->0.len() == 32
        }),
{
    lemma_v2_length(pairs);
}

proof fn lemma_v2_length(pairs: Seq<(Seq<char>, Seq<char>)>)
    ensures
        read_pairs(pairs) is Ok && read_pairs(pairs)->Ok_0.v2_info_hash is Some ==> read_pairs(
            pairs,
        )->Ok_0.v2_info_hash->0.len() == 32,
    decreases pairs.len(),
{
    if pairs.len() > 0 {
        lemma_v2_length(pairs.drop_last());
    }
}

} // verus!
