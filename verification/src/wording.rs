//! What the errors of the metainfo layer say in words.

use crate::bencode::DecodeError;
use crate::error::{join, number, number_text};
use crate::hash::Sha256Hash;
use crate::magnet::{MagnetError, MagnetFailure};
use crate::metainfo::{Failure, MetainfoError};
use crate::path::{texts, PathError, TorrentPath};
use vstd::prelude::*;
use vstd::string::StringExecFns;

verus! {

/// A hexadecimal digit as text.
pub open spec fn hex_digit_text(n: int) -> Seq<char> {
    if n < 10 {
        seq![('0' as u8 + n) as u8 as char]
    } else {
        seq![('a' as u8 + n - 10) as u8 as char]
    }
}

/// Bytes as pairs of hexadecimal digits.
pub open spec fn hex_text(bytes: Seq<u8>) -> Seq<char>
    decreases bytes.len(),
{
    if bytes.len() == 0 {
        Seq::empty()
    } else {
        hex_text(bytes.drop_last()) + hex_digit_text(bytes.last() as int / 16) + hex_digit_text(
            bytes.last() as int % 16,
        )
    }
}

/// Components separated by slashes.
pub open spec fn path_text(components: Seq<Seq<char>>) -> Seq<char>
    decreases components.len(),
{
    if components.len() == 0 {
        Seq::empty()
    } else if components.len() == 1 {
        components[0]
    } else {
        path_text(components.drop_last()) + "/"@ + components.last()
    }
}

fn hex_digit(n: u8) -> (text: &'static str)
    requires
        n < 16,
    ensures
        text@ == hex_digit_text(n as int),
{
    proof {
        reveal_strlit("0");
        reveal_strlit("1");
        reveal_strlit("2");
        reveal_strlit("3");
        reveal_strlit("4");
        reveal_strlit("5");
        reveal_strlit("6");
        reveal_strlit("7");
        reveal_strlit("8");
        reveal_strlit("9");
        reveal_strlit("a");
        reveal_strlit("b");
        reveal_strlit("c");
        reveal_strlit("d");
        reveal_strlit("e");
        reveal_strlit("f");
    }
    let text = match n {
        0 => "0",
        1 => "1",
        2 => "2",
        3 => "3",
        4 => "4",
        5 => "5",
        6 => "6",
        7 => "7",
        8 => "8",
        9 => "9",
        10 => "a",
        11 => "b",
        12 => "c",
        13 => "d",
        14 => "e",
        _ => "f",
    };
    assert(text@ =~= hex_digit_text(n as int));
    text
}

fn hexadecimal(bytes: &[u8]) -> (text: String)
    ensures
        text@ == hex_text(bytes@),
{
    let mut text = String::new();
    let mut i: usize = 0;
    assert(bytes@.take(0) =~= Seq::empty());
    while i < bytes.len()
        invariant
            i <= bytes@.len(),
            text@ == hex_text(bytes@.take(i as int)),
        decreases bytes@.len() - i,
    {
        proof {
            assert(bytes@.take(i + 1).drop_last() =~= bytes@.take(i as int));
            assert(bytes@.take(i + 1).last() == bytes@[i as int]);
        }
        text.append(hex_digit(bytes[i] / 16));
        text.append(hex_digit(bytes[i] % 16));
        i += 1;
    }
    assert(bytes@.take(bytes@.len() as int) =~= bytes@);
    text
}

impl Sha256Hash {
    /// The digest in hexadecimal.
    pub fn to_text(&self) -> (text: String)
        ensures
            text@ == hex_text(self@),
    {
        hexadecimal(self.as_bytes())
    }
}

impl TorrentPath {
    /// The components separated by slashes.
    pub fn to_text(&self) -> (text: String)
        ensures
            text@ == path_text(self@),
    {
        let components = self.components();
        let ghost names = texts(components@);
        if components.len() == 0 {
            return String::new();
        }
        let mut text = components[0].clone();
        let mut i: usize = 1;
        assert(names.take(1)[0] == components@[0]@);
        while i < components.len()
            invariant
                names == texts(components@),
                1 <= i <= components@.len(),
                text@ == path_text(names.take(i as int)),
            decreases components@.len() - i,
        {
            proof {
                assert(names.take(i + 1).drop_last() =~= names.take(i as int));
                assert(names.take(i + 1).last() == components@[i as int]@);
            }
            text.append("/");
            text.append(components[i].as_str());
            i += 1;
        }
        assert(names.take(names.len() as int) =~= names);
        text
    }
}

pub open spec fn path_error_text(error: PathError) -> Seq<char> {
    match error {
        PathError::Empty => "path has no components"@,
        PathError::EmptyComponent => "path component is empty"@,
        PathError::Traversal => "path component refers to a directory"@,
        PathError::Separator => "path component contains a separator"@,
    }
}

impl PathError {
    pub fn message(&self) -> (text: String)
        ensures
            text@ == path_error_text(*self),
    {
        match self {
            PathError::Empty => String::from_str("path has no components"),
            PathError::EmptyComponent => String::from_str("path component is empty"),
            PathError::Traversal => String::from_str("path component refers to a directory"),
            PathError::Separator => String::from_str("path component contains a separator"),
        }
    }
}

pub open spec fn decode_text(error: DecodeError) -> Seq<char> {
    match error {
        DecodeError::InputLimit { maximum } => "bencode input exceeds "@ + number_text(
            maximum as nat,
        ) + " bytes"@,
        DecodeError::UnexpectedEof { offset } => "unexpected end of bencode input at byte "@
            + number_text(offset as nat),
        DecodeError::InvalidMarker { offset, marker } => "invalid bencode marker 0x"@ + hex_text(
            seq![marker],
        ) + " at byte "@ + number_text(offset as nat),
        DecodeError::InvalidInteger { offset } => "invalid canonical integer at byte "@
            + number_text(offset as nat),
        DecodeError::InvalidByteStringLength { offset } =>
            "invalid canonical byte-string length at byte "@ + number_text(offset as nat),
        DecodeError::ByteStringLimit { maximum } => "byte string length exceeds "@ + number_text(
            maximum as nat,
        ) + " bytes"@,
        DecodeError::DepthLimit { maximum } => "nesting exceeds "@ + number_text(maximum as nat)
            + " levels"@,
        DecodeError::NodeLimit { maximum } => "document exceeds "@ + number_text(maximum as nat)
            + " values"@,
        DecodeError::CollectionLimit { maximum } => "collection exceeds "@ + number_text(
            maximum as nat,
        ) + " items"@,
        DecodeError::NonCanonicalDictionary { offset } =>
            "dictionary key is not strictly ordered at byte "@ + number_text(offset as nat),
        DecodeError::TrailingData { offset } => "trailing data begins at byte "@ + number_text(
            offset as nat,
        ),
    }
}

/// A number between two texts.
fn with_number(head: &str, value: usize, tail: &str) -> (text: String)
    ensures
        text@ == head@ + number_text(value as nat) + tail@,
{
    let mut text = join(head, number(value as u128).as_str());
    text.append(tail);
    text
}

fn then_number(head: &str, value: usize) -> (text: String)
    ensures
        text@ == head@ + number_text(value as nat),
{
    join(head, number(value as u128).as_str())
}

impl DecodeError {
    /// The error in words.
    pub fn message(&self) -> (text: String)
        ensures
            text@ == decode_text(*self),
    {
        match self {
            DecodeError::InputLimit { maximum } => with_number(
                "bencode input exceeds ",
                *maximum,
                " bytes",
            ),
            DecodeError::UnexpectedEof { offset } => then_number(
                "unexpected end of bencode input at byte ",
                *offset,
            ),
            DecodeError::InvalidMarker { offset, marker } => {
                let bytes: [u8; 1] = [*marker];
                assert(bytes@ =~= seq![*marker]);
                let mut text = join("invalid bencode marker 0x", hexadecimal(&bytes).as_str());
                text.append(" at byte ");
                text.append(number(*offset as u128).as_str());
                text
            },
            DecodeError::InvalidInteger { offset } => then_number(
                "invalid canonical integer at byte ",
                *offset,
            ),
            DecodeError::InvalidByteStringLength { offset } => then_number(
                "invalid canonical byte-string length at byte ",
                *offset,
            ),
            DecodeError::ByteStringLimit { maximum } => with_number(
                "byte string length exceeds ",
                *maximum,
                " bytes",
            ),
            DecodeError::DepthLimit { maximum } => with_number(
                "nesting exceeds ",
                *maximum,
                " levels",
            ),
            DecodeError::NodeLimit { maximum } => with_number(
                "document exceeds ",
                *maximum,
                " values",
            ),
            DecodeError::CollectionLimit { maximum } => with_number(
                "collection exceeds ",
                *maximum,
                " items",
            ),
            DecodeError::NonCanonicalDictionary { offset } => then_number(
                "dictionary key is not strictly ordered at byte ",
                *offset,
            ),
            DecodeError::TrailingData { offset } => then_number(
                "trailing data begins at byte ",
                *offset,
            ),
        }
    }
}

/// What an error says in words, where its words do not depend on a path or a digest.
pub open spec fn plain_text(error: MetainfoError) -> Seq<char> {
    match error {
        MetainfoError::Bencode(error) => decode_text(error),
        MetainfoError::RootType => "metainfo root must be a dictionary"@,
        MetainfoError::Field(field) => "missing or invalid field: "@ + field@,
        MetainfoError::Utf8 { field } => "field "@ + field@ + " is not valid UTF-8"@,
        MetainfoError::IntegerRange { field } => "integer field "@ + field@
            + " is outside its permitted range"@,
        MetainfoError::Path(error) => "torrent path is invalid: "@ + path_error_text(error),
        MetainfoError::EmptyFiles => "torrent file list is empty"@,
        MetainfoError::DuplicatePath(path) => "torrent contains duplicate path "@ + path_text(
            path@,
        ),
        MetainfoError::TotalLengthOverflow => "torrent total length overflowed u64"@,
        MetainfoError::InvalidV1Pieces => "v1 pieces length is not a multiple of 20"@,
        MetainfoError::V1PieceCount { expected, actual } => "v1 piece count is "@ + number_text(
            actual as nat,
        ) + ", expected "@ + number_text(expected as nat),
        MetainfoError::InvalidV2PieceLength =>
            "v2 piece length must be a power of two and at least 16384"@,
        MetainfoError::FileTreeDepth => "v2 file tree exceeds 64 path levels"@,
        MetainfoError::SymlinkUnsupported =>
            "symbolic links in torrent metadata are not supported"@,
        MetainfoError::MissingPiecesRoot => "non-empty v2 file is missing its pieces root"@,
        MetainfoError::PieceLayer(root) => "piece layer for root "@ + hex_text(root@)
            + " is missing or malformed"@,
        MetainfoError::PieceLayerRoot(root) => "piece layer for root "@ + hex_text(root@)
            + " does not reconstruct that root"@,
        MetainfoError::UnreferencedPieceLayer =>
            "piece layers contain an entry not referenced by a large file"@,
        MetainfoError::HybridFileMismatch =>
            "hybrid v1 and v2 file layouts describe different content"@,
        MetainfoError::HybridAlignment =>
            "hybrid v1 layout does not align every non-empty file to a piece boundary"@,
    }
}

/// What an error says in words.
pub open spec fn failure_text(failure: Failure) -> Seq<char> {
    match failure {
        Failure::Plain(error) => plain_text(error),
        Failure::Duplicate(path) => "torrent contains duplicate path "@ + path_text(path),
        Failure::Layer(root) => "piece layer for root "@ + hex_text(root)
            + " is missing or malformed"@,
        Failure::LayerRoot(root) => "piece layer for root "@ + hex_text(root)
            + " does not reconstruct that root"@,
    }
}

/// Text between two texts.
fn between(head: &str, middle: &str, tail: &str) -> (text: String)
    ensures
        text@ == head@ + middle@ + tail@,
{
    let mut text = join(head, middle);
    text.append(tail);
    text
}

impl MetainfoError {
    /// The error in words.
    pub fn message(&self) -> (text: String)
        ensures
            text@ == failure_text(self@),
    {
        match self {
            MetainfoError::Bencode(error) => error.message(),
            MetainfoError::RootType => String::from_str("metainfo root must be a dictionary"),
            MetainfoError::Field(field) => join("missing or invalid field: ", field),
            MetainfoError::Utf8 { field } => between("field ", field, " is not valid UTF-8"),
            MetainfoError::IntegerRange { field } => between(
                "integer field ",
                field,
                " is outside its permitted range",
            ),
            MetainfoError::Path(error) => join(
                "torrent path is invalid: ",
                error.message().as_str(),
            ),
            MetainfoError::EmptyFiles => String::from_str("torrent file list is empty"),
            MetainfoError::DuplicatePath(path) => join(
                "torrent contains duplicate path ",
                path.to_text().as_str(),
            ),
            MetainfoError::TotalLengthOverflow => String::from_str(
                "torrent total length overflowed u64",
            ),
            MetainfoError::InvalidV1Pieces => String::from_str(
                "v1 pieces length is not a multiple of 20",
            ),
            MetainfoError::V1PieceCount { expected, actual } => {
                let mut text = with_number("v1 piece count is ", *actual, ", expected ");
                text.append(number(*expected as u128).as_str());
                text
            },
            MetainfoError::InvalidV2PieceLength => String::from_str(
                "v2 piece length must be a power of two and at least 16384",
            ),
            MetainfoError::FileTreeDepth => String::from_str("v2 file tree exceeds 64 path levels"),
            MetainfoError::SymlinkUnsupported => String::from_str(
                "symbolic links in torrent metadata are not supported",
            ),
            MetainfoError::MissingPiecesRoot => String::from_str(
                "non-empty v2 file is missing its pieces root",
            ),
            MetainfoError::PieceLayer(root) => between(
                "piece layer for root ",
                root.to_text().as_str(),
                " is missing or malformed",
            ),
            MetainfoError::PieceLayerRoot(root) => between(
                "piece layer for root ",
                root.to_text().as_str(),
                " does not reconstruct that root",
            ),
            MetainfoError::UnreferencedPieceLayer => String::from_str(
                "piece layers contain an entry not referenced by a large file",
            ),
            MetainfoError::HybridFileMismatch => String::from_str(
                "hybrid v1 and v2 file layouts describe different content",
            ),
            MetainfoError::HybridAlignment => String::from_str(
                "hybrid v1 layout does not align every non-empty file to a piece boundary",
            ),
        }
    }
}

/// What an error says in words.
pub open spec fn magnet_text(failure: MagnetFailure) -> Seq<char> {
    match failure {
        MagnetFailure::Url(text) => "magnet URI is invalid: "@ + text,
        MagnetFailure::Scheme => "URI scheme must be magnet"@,
        MagnetFailure::MissingTopic => "magnet URI does not contain a supported exact topic"@,
        MagnetFailure::InvalidV1 => "invalid v1 exact topic"@,
        MagnetFailure::InvalidV2 => "invalid v2 multihash exact topic"@,
    }
}

impl MagnetError {
    /// The error in words.
    pub fn message(&self) -> (text: String)
        ensures
            text@ == magnet_text(self@),
    {
        match self {
            MagnetError::Url(text) => join("magnet URI is invalid: ", text.as_str()),
            MagnetError::Scheme => String::from_str("URI scheme must be magnet"),
            MagnetError::MissingTopic => String::from_str(
                "magnet URI does not contain a supported exact topic",
            ),
            MagnetError::InvalidV1 => String::from_str("invalid v1 exact topic"),
            MagnetError::InvalidV2 => String::from_str("invalid v2 multihash exact topic"),
        }
    }
}

} // verus!
