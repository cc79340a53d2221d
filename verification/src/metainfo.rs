//! Torrent metainfo: BEP 3, BEP 52 and hybrid documents, validated as a whole.

use crate::bencode::{lookup, parse_whole, BencodeLimits, Content, DecodeError, Item};
use crate::hash::{
    floor_log2, is_power_of_two, layer_root, sha1_of, sha256_of, Sha1Hash, Sha256Hash,
};
use crate::num::div_ceil_of;
use crate::path::{copy_strings, path_error, texts, PathError, TorrentPath};
use crate::path_order::{collision, path_keys};
use crate::piece_layers::PieceLayers;
use vstd::prelude::*;
use vstd::slice::slice_to_vec;
use vstd::utf8::{decode_utf8, encode_utf8, valid_utf8};

verus! {

#[derive(Clone, Copy, Debug, Eq, PartialEq, Structural)]
pub enum TorrentVersion {
    V1,
    V2,
    Hybrid,
}

#[derive(Debug, Eq, PartialEq)]
pub struct FileEntry {
    pub path: TorrentPath,
    pub length: u64,
    pub pieces_root: Option<Sha256Hash>,
    pub padding: bool,
    pub wire_offset: u64,
}

#[derive(Debug)]
pub struct Metainfo {
    pub raw: Vec<u8>,
    pub name: String,
    pub version: TorrentVersion,
    pub v1_info_hash: Option<Sha1Hash>,
    pub v2_info_hash: Option<Sha256Hash>,
    pub piece_length: u32,
    pub v1_piece_hashes: Vec<Sha1Hash>,
    pub piece_layers: PieceLayers,
    pub files: Vec<FileEntry>,
    pub v1_files: Vec<FileEntry>,
    pub total_length: u64,
    pub piece_space_length: u64,
    pub trackers: Vec<Vec<String>>,
    pub web_seeds: Vec<String>,
    pub private: bool,
}

#[derive(Debug)]
pub enum MetainfoError {
    Bencode(DecodeError),
    /// The metainfo root must be a dictionary.
    RootType,
    /// A missing or invalid field.
    Field(&'static str),
    /// A field is not valid UTF-8.
    Utf8 { field: &'static str },
    /// An integer field is outside its permitted range.
    IntegerRange { field: &'static str },
    Path(PathError),
    EmptyFiles,
    /// Two paths are the same, or one is a directory of the other, when letter case is ignored.
    DuplicatePath(TorrentPath),
    /// The total length overflowed `u64`.
    TotalLengthOverflow,
    /// The v1 pieces length is not a multiple of 20.
    InvalidV1Pieces,
    V1PieceCount { expected: u64, actual: usize },
    /// The v2 piece length must be a power of two and at least 16384.
    InvalidV2PieceLength,
    /// The v2 file tree exceeds 64 path levels.
    FileTreeDepth,
    SymlinkUnsupported,
    /// A non-empty v2 file is missing its pieces root.
    MissingPiecesRoot,
    /// The piece layer for a root is missing or malformed.
    PieceLayer(Sha256Hash),
    /// The piece layer for a root does not reconstruct that root.
    PieceLayerRoot(Sha256Hash),
    /// The piece layers contain an entry not referenced by a large file.
    UnreferencedPieceLayer,
    /// Hybrid v1 and v2 file layouts describe different content.
    HybridFileMismatch,
    /// A hybrid v1 layout does not align every non-empty file to a piece boundary.
    HybridAlignment,
}

/// An error by what it says.
pub enum Failure {
    Plain(MetainfoError),
    Duplicate(Seq<Seq<char>>),
    Layer(Seq<u8>),
    LayerRoot(Seq<u8>),
}

impl MetainfoError {
    pub open spec fn view(&self) -> Failure {
        match *self {
            MetainfoError::DuplicatePath(path) => Failure::Duplicate(path@),
            MetainfoError::PieceLayer(root) => Failure::Layer(root@),
            MetainfoError::PieceLayerRoot(root) => Failure::LayerRoot(root@),
            other => Failure::Plain(other),
        }
    }
}

pub open spec fn missing(field: &'static str) -> Failure {
    Failure::Plain(MetainfoError::Field(field))
}

/// A file by its values.
pub struct FileModel {
    pub path: Seq<Seq<char>>,
    pub length: int,
    pub pieces_root: Option<Seq<u8>>,
    pub padding: bool,
    pub wire_offset: int,
}

pub open spec fn digest_view(hash: Option<Sha256Hash>) -> Option<Seq<u8>> {
    match hash {
        Some(hash) => Some(hash@),
        None => None,
    }
}

impl FileEntry {
    pub open spec fn view(&self) -> FileModel {
        FileModel {
            path: self.path@,
            length: self.length as int,
            pieces_root: digest_view(self.pieces_root),
            padding: self.padding,
            wire_offset: self.wire_offset as int,
        }
    }
}

impl Clone for FileEntry {
    fn clone(&self) -> (copy: Self)
        ensures
            copy@ == self@,
    {
        FileEntry {
            path: self.path.clone(),
            length: self.length,
            pieces_root: self.pieces_root,
            padding: self.padding,
            wire_offset: self.wire_offset,
        }
    }
}

pub open spec fn files_view(files: Seq<FileEntry>) -> Seq<FileModel> {
    Seq::new(files.len(), |i: int| files[i]@)
}

/// A whole document by its values.
pub struct MetaModel {
    pub raw: Seq<u8>,
    pub name: Seq<char>,
    pub version: TorrentVersion,
    pub v1_info_hash: Option<Seq<u8>>,
    pub v2_info_hash: Option<Seq<u8>>,
    pub piece_length: int,
    pub v1_piece_hashes: Seq<Seq<u8>>,
    pub piece_layers: Map<Seq<u8>, Seq<Seq<u8>>>,
    pub files: Seq<FileModel>,
    pub v1_files: Seq<FileModel>,
    pub total_length: int,
    pub piece_space_length: int,
    pub trackers: Seq<Seq<Seq<char>>>,
    pub web_seeds: Seq<Seq<char>>,
    pub private: bool,
}

pub open spec fn sha1_views(hashes: Seq<Sha1Hash>) -> Seq<Seq<u8>> {
    Seq::new(hashes.len(), |i: int| hashes[i]@)
}

pub open spec fn tiers_view(tiers: Seq<Vec<String>>) -> Seq<Seq<Seq<char>>> {
    Seq::new(tiers.len(), |i: int| texts(tiers[i]@))
}

impl Metainfo {
    pub open spec fn view(&self) -> MetaModel {
        MetaModel {
            raw: self.raw@,
            name: self.name@,
            version: self.version,
            v1_info_hash: match self.v1_info_hash {
                Some(hash) => Some(hash@),
                None => None,
            },
            v2_info_hash: digest_view(self.v2_info_hash),
            piece_length: self.piece_length as int,
            v1_piece_hashes: sha1_views(self.v1_piece_hashes@),
            piece_layers: self.piece_layers@,
            files: files_view(self.files@),
            v1_files: files_view(self.v1_files@),
            total_length: self.total_length as int,
            piece_space_length: self.piece_space_length as int,
            trackers: tiers_view(self.trackers@),
            web_seeds: texts(self.web_seeds@),
            private: self.private,
        }
    }
}

/// Every layer fits in the memory that the document was read from.
pub open spec fn layers_bounded(layers: Map<Seq<u8>, Seq<Seq<u8>>>) -> bool {
    forall|root: Seq<u8>| #[trigger]
        layers.contains_key(root) ==> layers[root].len() <= usize::MAX / 32
}

impl Metainfo {
    /// What every document that was read keeps: a piece length that fits its
    /// version, files that lie end to end, and layers that fit in memory.
    pub open spec fn wf(&self) -> bool {
        &&& self.piece_length > 0
        &&& self.v2_info_hash is Some ==> self.piece_length >= 16384
        &&& laid_out(files_view(self.files@))
        &&& laid_out(files_view(self.v1_files@))
        &&& layers_bounded(self.piece_layers@)
    }

    /// Whether peers may be found in the DHT, on the local network and through
    /// other peers, besides trackers.
    pub fn may_share_peers(&self) -> (result: bool)
        ensures
            result == !self@.private,
    {
        !self.private
    }
}

/// Copies of files.
pub fn copy_files(files: &Vec<FileEntry>) -> (copy: Vec<FileEntry>)
    ensures
        files_view(copy@) == files_view(files@),
{
    let mut copy: Vec<FileEntry> = Vec::new();
    let mut i: usize = 0;
    while i < files.len()
        invariant
            i <= files@.len(),
            copy@.len() == i,
            forall|k: int| 0 <= k < i ==> (#[trigger] copy@[k])@ == files@[k]@,
        decreases files@.len() - i,
    {
        copy.push(files[i].clone());
        i += 1;
    }
    assert(files_view(copy@) =~= files_view(files@));
    copy
}

fn copy_hashes(hashes: &Vec<Sha1Hash>) -> (copy: Vec<Sha1Hash>)
    ensures
        copy@ == hashes@,
{
    slice_to_vec(hashes.as_slice())
}

fn copy_tiers(tiers: &Vec<Vec<String>>) -> (copy: Vec<Vec<String>>)
    ensures
        tiers_view(copy@) == tiers_view(tiers@),
{
    let mut copy: Vec<Vec<String>> = Vec::new();
    let mut i: usize = 0;
    while i < tiers.len()
        invariant
            i <= tiers@.len(),
            copy@.len() == i,
            forall|k: int| 0 <= k < i ==> texts((#[trigger] copy@[k])@) == texts(tiers@[k]@),
        decreases tiers@.len() - i,
    {
        copy.push(copy_strings(&tiers[i]));
        i += 1;
    }
    assert(tiers_view(copy@) =~= tiers_view(tiers@));
    copy
}

impl Clone for Metainfo {
    fn clone(&self) -> (copy: Self)
        ensures
            copy@ == self@,
            self.wf() ==> copy.wf(),
    {
        Metainfo {
            raw: slice_to_vec(self.raw.as_slice()),
            name: self.name.clone(),
            version: self.version,
            v1_info_hash: self.v1_info_hash,
            v2_info_hash: self.v2_info_hash,
            piece_length: self.piece_length,
            v1_piece_hashes: copy_hashes(&self.v1_piece_hashes),
            piece_layers: self.piece_layers.clone(),
            files: copy_files(&self.files),
            v1_files: copy_files(&self.v1_files),
            total_length: self.total_length,
            piece_space_length: self.piece_space_length,
            trackers: copy_tiers(&self.trackers),
            web_seeds: copy_strings(&self.web_seeds),
            private: self.private,
        }
    }
}

/// The entries of a dictionary.
pub open spec fn entries_of(item: Item) -> Option<Seq<(Seq<u8>, Item)>> {
    match item.content {
        Content::Dictionary(entries) => Some(entries),
        _ => None,
    }
}

/// The value under a key that is written as text.
pub open spec fn find(entries: Seq<(Seq<u8>, Item)>, key: &str) -> Option<Item> {
    lookup(Content::Dictionary(entries), encode_utf8(key@))
}

pub open spec fn bytes_at(entries: Seq<(Seq<u8>, Item)>, key: &str) -> Option<Seq<u8>> {
    match find(entries, key) {
        Some(item) => match item.content {
            Content::Bytes(bytes) => Some(bytes),
            _ => None,
        },
        None => None,
    }
}

pub open spec fn integer_at(entries: Seq<(Seq<u8>, Item)>, key: &str) -> Option<int> {
    match find(entries, key) {
        Some(item) => match item.content {
            Content::Integer(value) => Some(value),
            _ => None,
        },
        None => None,
    }
}

pub open spec fn list_at(entries: Seq<(Seq<u8>, Item)>, key: &str) -> Option<Seq<Item>> {
    match find(entries, key) {
        Some(item) => match item.content {
            Content::List(items) => Some(items),
            _ => None,
        },
        None => None,
    }
}

/// An integer that may be absent, but is an integer when it is there.
pub open spec fn optional_integer_at(
    entries: Seq<(Seq<u8>, Item)>,
    key: &str,
    field: &'static str,
) -> Result<Option<int>, Failure> {
    if find(entries, key) is Some && integer_at(entries, key) is None {
        Err(missing(field))
    } else {
        Ok(integer_at(entries, key))
    }
}

/// An integer that must be there and not be negative.
pub open spec fn length_at(
    entries: Seq<(Seq<u8>, Item)>,
    key: &str,
    field: &'static str,
) -> Result<int, Failure> {
    match integer_at(entries, key) {
        None => Err(missing(field)),
        Some(value) => if value < 0 {
            Err(Failure::Plain(MetainfoError::IntegerRange { field }))
        } else {
            Ok(value)
        },
    }
}

pub open spec fn text_of(bytes: Seq<u8>, field: &'static str) -> Result<Seq<char>, Failure> {
    if valid_utf8(bytes) {
        Ok(decode_utf8(bytes))
    } else {
        Err(Failure::Plain(MetainfoError::Utf8 { field }))
    }
}

/// Byte strings of one size, cut from a longer one.
pub open spec fn chunks(bytes: Seq<u8>, size: nat) -> Seq<Seq<u8>> {
    Seq::new(bytes.len() / size, |i: int| bytes.subrange(i * size, i * size + size))
}

/// The v1 piece hashes.
pub open spec fn piece_hashes_of(info: Seq<(Seq<u8>, Item)>) -> Result<Seq<Seq<u8>>, Failure> {
    match bytes_at(info, "pieces") {
        None => Err(missing("info.pieces")),
        Some(bytes) => if bytes.len() % 20 != 0 {
            Err(Failure::Plain(MetainfoError::InvalidV1Pieces))
        } else {
            Ok(chunks(bytes, 20))
        },
    }
}

/// The components of a v1 path below the torrent's name.
pub open spec fn parts_of(items: Seq<Item>) -> Result<Seq<Seq<char>>, Failure>
    decreases items.len(),
{
    if items.len() == 0 {
        Ok(Seq::empty())
    } else {
        match parts_of(items.drop_last()) {
            Err(failure) => Err(failure),
            Ok(parts) => match items.last().content {
                Content::Bytes(bytes) => match text_of(bytes, "info.files[].path[]") {
                    Err(failure) => Err(failure),
                    Ok(part) => Ok(parts.push(part)),
                },
                _ => Err(missing("info.files[].path[]")),
            },
        }
    }
}

/// Whether a file's attributes hold a letter.
pub open spec fn has_attribute(entries: Seq<(Seq<u8>, Item)>, letter: u8) -> bool {
    match bytes_at(entries, "attr") {
        Some(attributes) => attributes.contains(letter),
        None => false,
    }
}

/// A file under a path, before offsets are given out.
pub open spec fn file_at(
    path: Seq<Seq<char>>,
    length: int,
    pieces_root: Option<Seq<u8>>,
    padding: bool,
) -> Result<FileModel, Failure> {
    match path_error(path) {
        Some(error) => Err(Failure::Plain(MetainfoError::Path(error))),
        None => Ok(FileModel { path, length, pieces_root, padding, wire_offset: 0 }),
    }
}

/// One entry of a v1 file list.
pub open spec fn v1_file(item: Item, name: Seq<char>) -> Result<FileModel, Failure> {
    match entries_of(item) {
        None => Err(missing("info.files[]")),
        Some(entries) => match length_at(entries, "length", "info.files[].length") {
            Err(failure) => Err(failure),
            Ok(length) => match list_at(entries, "path") {
                None => Err(missing("info.files[].path")),
                Some(items) => match parts_of(items) {
                    Err(failure) => Err(failure),
                    Ok(parts) => file_at(
                        seq![name] + parts,
                        length,
                        None,
                        has_attribute(entries, 0x70),
                    ),
                },
            },
        },
    }
}

pub open spec fn v1_list(items: Seq<Item>, name: Seq<char>) -> Result<Seq<FileModel>, Failure>
    decreases items.len(),
{
    if items.len() == 0 {
        Ok(Seq::empty())
    } else {
        match v1_list(items.drop_last(), name) {
            Err(failure) => Err(failure),
            Ok(files) => match v1_file(items.last(), name) {
                Err(failure) => Err(failure),
                Ok(file) => Ok(files.push(file)),
            },
        }
    }
}

/// The v1 files: a list, or a single file named like the torrent.
pub open spec fn v1_files_of(info: Seq<(Seq<u8>, Item)>, name: Seq<char>) -> Result<
    Seq<FileModel>,
    Failure,
> {
    if find(info, "files") is Some {
        match list_at(info, "files") {
            None => Err(missing("info.files")),
            Some(items) => if items.len() == 0 {
                Err(Failure::Plain(MetainfoError::EmptyFiles))
            } else {
                v1_list(items, name)
            },
        }
    } else {
        match length_at(info, "length", "info.length") {
            Err(failure) => Err(failure),
            Ok(length) => match file_at(seq![name], length, None, false) {
                Err(failure) => Err(failure),
                Ok(file) => Ok(seq![file]),
            },
        }
    }
}

/// The root under which a v2 file's pieces are hashed, where one is given.
pub open spec fn pieces_root_of(entries: Seq<(Seq<u8>, Item)>) -> Result<
    Option<Seq<u8>>,
    Failure,
> {
    match find(entries, "pieces root") {
        None => Ok(None),
        Some(item) => match item.content {
            Content::Bytes(bytes) => if bytes.len() == 32 {
                Ok(Some(bytes))
            } else {
                Err(missing("info.file tree.pieces root"))
            },
            _ => Err(missing("info.file tree.pieces root")),
        },
    }
}

/// A file of the v2 tree.
pub open spec fn v2_file(item: Item, path: Seq<Seq<char>>) -> Result<FileModel, Failure> {
    match entries_of(item) {
        None => Err(missing("info.file tree file")),
        Some(entries) => match length_at(entries, "length", "info.file tree.length") {
            Err(failure) => Err(failure),
            Ok(length) => if has_attribute(entries, 0x6c) {
                Err(Failure::Plain(MetainfoError::SymlinkUnsupported))
            } else {
                match pieces_root_of(entries) {
                    Err(failure) => Err(failure),
                    Ok(root) => file_at(path, length, root, has_attribute(entries, 0x70)),
                }
            },
        },
    }
}

/// The files of a v2 directory, in the order of the tree: an empty key holds
/// the file itself, any other key a directory.
pub open spec fn tree_files(
    tree: Seq<(Seq<u8>, Item)>,
    path: Seq<Seq<char>>,
    depth: nat,
) -> Result<Seq<FileModel>, Failure>
    decreases 65 - depth, tree.len(),
{
    if depth > 64 {
        Err(Failure::Plain(MetainfoError::FileTreeDepth))
    } else if tree.len() == 0 {
        Ok(Seq::empty())
    } else {
        match tree_files(tree.drop_last(), path, depth) {
            Err(failure) => Err(failure),
            Ok(files) => if tree.last().0.len() == 0 {
                match v2_file(tree.last().1, path) {
                    Err(failure) => Err(failure),
                    Ok(file) => Ok(files.push(file)),
                }
            } else {
                match text_of(tree.last().0, "info.file tree path") {
                    Err(failure) => Err(failure),
                    Ok(component) => match entries_of(tree.last().1) {
                        None => Err(missing("info.file tree directory")),
                        Some(subtree) => match tree_files(
                            subtree,
                            path.push(component),
                            depth + 1,
                        ) {
                            Err(failure) => Err(failure),
                            Ok(more) => Ok(files + more),
                        },
                    },
                }
            },
        }
    }
}

pub open spec fn v2_files_of(info: Seq<(Seq<u8>, Item)>, name: Seq<char>) -> Result<
    Seq<FileModel>,
    Failure,
> {
    match find(info, "file tree") {
        None => Err(missing("info.file tree")),
        Some(item) => match entries_of(item) {
            None => Err(missing("info.file tree")),
            Some(tree) => match tree_files(tree, seq![name], 0) {
                Err(failure) => Err(failure),
                Ok(files) => if files.len() == 0 {
                    Err(Failure::Plain(MetainfoError::EmptyFiles))
                } else {
                    Ok(files)
                },
            },
        },
    }
}

/// The sum of the lengths of files.
pub open spec fn total_of(files: Seq<FileModel>) -> int
    decreases files.len(),
{
    if files.len() == 0 {
        0
    } else {
        total_of(files.drop_last()) + files.last().length
    }
}

/// Files laid end to end.
pub open spec fn with_offsets(files: Seq<FileModel>) -> Seq<FileModel> {
    Seq::new(
        files.len(),
        |i: int| FileModel { wire_offset: total_of(files.take(i)), ..files[i] },
    )
}

/// Files laid end to end, if all of them together fit in 64 bits.
pub open spec fn offsets_of(files: Seq<FileModel>) -> Result<Seq<FileModel>, Failure> {
    if total_of(files) > u64::MAX {
        Err(Failure::Plain(MetainfoError::TotalLengthOverflow))
    } else {
        Ok(with_offsets(files))
    }
}

/// Files laid end to end: each begins where the ones before it end, and all
/// of them together fit in 64 bits.
#[verifier::opaque]
pub open spec fn laid_out(files: Seq<FileModel>) -> bool {
    &&& total_of(files) <= u64::MAX
    &&& forall|i: int|
        0 <= i < files.len() ==> (#[trigger] files[i]).wire_offset == total_of(files.take(i))
}

pub open spec fn file_paths(files: Seq<FileModel>) -> Seq<Seq<Seq<char>>> {
    Seq::new(files.len(), |i: int| files[i].path)
}

/// The path that collides with another, if there is one.
pub open spec fn duplicate_of(files: Seq<FileModel>) -> Option<Failure> {
    match collision(path_keys(file_paths(files))) {
        Some(at) => Some(Failure::Duplicate(files[at].path)),
        None => None,
    }
}

/// The files that hold content.
pub open spec fn content_of(files: Seq<FileModel>) -> Seq<FileModel>
    decreases files.len(),
{
    if files.len() == 0 {
        Seq::empty()
    } else if files.last().padding {
        content_of(files.drop_last())
    } else {
        content_of(files.drop_last()).push(files.last())
    }
}

/// Whether two layouts name the same files with the same lengths, padding aside.
pub open spec fn same_content(a: Seq<FileModel>, b: Seq<FileModel>) -> bool {
    let x = content_of(a);
    let y = content_of(b);
    x.len() == y.len() && forall|i: int|
        0 <= i < x.len() ==> (#[trigger] x[i]).path == (#[trigger] y[i]).path && x[i].length
            == y[i].length
}

/// Whether every file with content begins on a piece boundary.
pub open spec fn aligned(files: Seq<FileModel>, piece_length: int) -> bool {
    forall|i: int|
        0 <= i < files.len() && !(#[trigger] files[i]).padding && files[i].length > 0
            ==> total_of(files.take(i)) % piece_length == 0
}

pub open spec fn hybrid_failure(
    v1_files: Seq<FileModel>,
    v2_files: Seq<FileModel>,
    piece_length: int,
) -> Option<Failure> {
    if !same_content(v1_files, v2_files) {
        Some(Failure::Plain(MetainfoError::HybridFileMismatch))
    } else if !aligned(v1_files, piece_length) {
        Some(Failure::Plain(MetainfoError::HybridAlignment))
    } else {
        None
    }
}

/// The piece layers as they are written down.
pub open spec fn layers_of(entries: Seq<(Seq<u8>, Item)>) -> Result<
    Map<Seq<u8>, Seq<Seq<u8>>>,
    Failure,
>
    decreases entries.len(),
{
    if entries.len() == 0 {
        Ok(Map::empty())
    } else {
        match layers_of(entries.drop_last()) {
            Err(failure) => Err(failure),
            Ok(layers) => if entries.last().0.len() != 32 {
                Err(missing("piece layers key"))
            } else {
                match entries.last().1.content {
                    Content::Bytes(bytes) => if bytes.len() % 32 == 0 {
                        Ok(layers.insert(entries.last().0, chunks(bytes, 32)))
                    } else {
                        Err(Failure::Layer(entries.last().0))
                    },
                    _ => Err(Failure::Layer(entries.last().0)),
                }
            },
        }
    }
}

/// Whether a file is long enough to need a piece layer.
pub open spec fn is_large(file: FileModel, piece_length: int) -> bool {
    !file.padding && file.length > piece_length
}

/// What is wrong with the layer of one file, if anything.
pub open spec fn layer_failure(
    file: FileModel,
    layers: Map<Seq<u8>, Seq<Seq<u8>>>,
    piece_length: int,
    required: bool,
) -> Option<Failure> {
    if file.padding || file.length <= 0 {
        None
    } else {
        match file.pieces_root {
            None => Some(Failure::Plain(MetainfoError::MissingPiecesRoot)),
            Some(root) => if file.length <= piece_length {
                None
            } else if !layers.contains_key(root) {
                if required {
                    Some(Failure::Layer(root))
                } else {
                    None
                }
            } else if layers[root].len() != div_ceil_of(file.length, piece_length) {
                Some(Failure::Layer(root))
            } else if layer_root(layers[root], floor_log2((piece_length / 16384) as nat)) != root {
                Some(Failure::LayerRoot(root))
            } else {
                None
            },
        }
    }
}

/// The first thing that is wrong with the layers of a list of files, if anything.
pub open spec fn layers_failure(
    files: Seq<FileModel>,
    layers: Map<Seq<u8>, Seq<Seq<u8>>>,
    piece_length: int,
    required: bool,
) -> Option<Failure>
    decreases files.len(),
{
    if files.len() == 0 {
        None
    } else {
        match layers_failure(files.drop_last(), layers, piece_length, required) {
            Some(failure) => Some(failure),
            None => layer_failure(files.last(), layers, piece_length, required),
        }
    }
}

/// Whether a large file refers to a root.
pub open spec fn is_referenced(files: Seq<FileModel>, piece_length: int, root: Seq<u8>) -> bool {
    exists|i: int|
        0 <= i < files.len() && is_large(#[trigger] files[i], piece_length)
            && files[i].pieces_root == Some(root)
}

/// The piece layers of a document, checked against its files.
pub open spec fn piece_layers_of(
    root: Seq<(Seq<u8>, Item)>,
    files: Seq<FileModel>,
    piece_length: int,
    required: bool,
) -> Result<Map<Seq<u8>, Seq<Seq<u8>>>, Failure> {
    let written = match find(root, "piece layers") {
        None => Ok(Map::empty()),
        Some(item) => match entries_of(item) {
            None => Err(missing("piece layers")),
            Some(entries) => layers_of(entries),
        },
    };
    match written {
        Err(failure) => Err(failure),
        Ok(layers) => match layers_failure(files, layers, piece_length, required) {
            Some(failure) => Err(failure),
            None => if exists|key: Seq<u8>|
                layers.contains_key(key) && !is_referenced(files, piece_length, key) {
                Err(Failure::Plain(MetainfoError::UnreferencedPieceLayer))
            } else {
                Ok(layers)
            },
        },
    }
}

/// The byte strings of a list that are valid UTF-8.
pub open spec fn utf8_strings(items: Seq<Item>) -> Seq<Seq<char>>
    decreases items.len(),
{
    if items.len() == 0 {
        Seq::empty()
    } else {
        match items.last().content {
            Content::Bytes(bytes) => if valid_utf8(bytes) {
                utf8_strings(items.drop_last()).push(decode_utf8(bytes))
            } else {
                utf8_strings(items.drop_last())
            },
            _ => utf8_strings(items.drop_last()),
        }
    }
}

/// The tracker tiers of a list that hold at least one tracker.
pub open spec fn tiers_of(items: Seq<Item>) -> Seq<Seq<Seq<char>>>
    decreases items.len(),
{
    if items.len() == 0 {
        Seq::empty()
    } else {
        match items.last().content {
            Content::List(values) => if utf8_strings(values).len() > 0 {
                tiers_of(items.drop_last()).push(utf8_strings(values))
            } else {
                tiers_of(items.drop_last())
            },
            _ => tiers_of(items.drop_last()),
        }
    }
}

/// The trackers: the tiers where there are any, else the single tracker.
pub open spec fn trackers_of(root: Seq<(Seq<u8>, Item)>) -> Seq<Seq<Seq<char>>> {
    let tiers = match list_at(root, "announce-list") {
        Some(items) => tiers_of(items),
        None => Seq::empty(),
    };
    if tiers.len() > 0 {
        tiers
    } else {
        match bytes_at(root, "announce") {
            Some(bytes) => if valid_utf8(bytes) {
                seq![seq![decode_utf8(bytes)]]
            } else {
                Seq::empty()
            },
            None => Seq::empty(),
        }
    }
}

/// The web seeds: a single one or a list of them.
pub open spec fn web_seeds_of(root: Seq<(Seq<u8>, Item)>) -> Seq<Seq<char>> {
    match find(root, "url-list") {
        Some(item) => match item.content {
            Content::Bytes(bytes) => if valid_utf8(bytes) {
                seq![decode_utf8(bytes)]
            } else {
                Seq::empty()
            },
            Content::List(items) => utf8_strings(items),
            _ => Seq::empty(),
        },
        None => Seq::empty(),
    }
}

/// What the front of a document says before its files are read.
pub struct Header {
    pub root: Seq<(Seq<u8>, Item)>,
    pub info: Seq<(Seq<u8>, Item)>,
    pub raw_info: Seq<u8>,
    pub name: Seq<char>,
    pub has_v1: bool,
    pub has_v2: bool,
    pub piece_length: int,
}

pub open spec fn name_of(info: Seq<(Seq<u8>, Item)>) -> Result<Seq<char>, Failure> {
    match bytes_at(info, "name") {
        None => Err(missing("info.name")),
        Some(bytes) => text_of(bytes, "info.name"),
    }
}

pub open spec fn piece_length_of(info: Seq<(Seq<u8>, Item)>, has_v2: bool) -> Result<
    int,
    Failure,
> {
    match integer_at(info, "piece length") {
        None => Err(missing("info.piece length")),
        Some(value) => if !(0 < value <= u32::MAX) {
            Err(Failure::Plain(MetainfoError::IntegerRange { field: "info.piece length" }))
        } else if has_v2 && (value < 16384 || !is_power_of_two(value as nat)) {
            Err(Failure::Plain(MetainfoError::InvalidV2PieceLength))
        } else {
            Ok(value)
        },
    }
}

/// The header of a decoded document.
pub open spec fn header_of(input: Seq<u8>, root: Item) -> Result<Header, Failure> {
    match entries_of(root) {
        None => Err(Failure::Plain(MetainfoError::RootType)),
        Some(entries) => match find(entries, "info") {
            None => Err(missing("info")),
            Some(item) => match entries_of(item) {
                None => Err(missing("info")),
                Some(info) => info_header_of(input, entries, item, info),
            },
        },
    }
}

pub open spec fn info_header_of(
    input: Seq<u8>,
    root: Seq<(Seq<u8>, Item)>,
    item: Item,
    info: Seq<(Seq<u8>, Item)>,
) -> Result<Header, Failure> {
    match name_of(info) {
        Err(failure) => Err(failure),
        Ok(name) => match optional_integer_at(info, "meta version", "info.meta version") {
            Err(failure) => Err(failure),
            Ok(meta_version) => {
                let has_v1 = find(info, "pieces") is Some;
                let has_v2 = meta_version == Some(2int);
                if !has_v1 && !has_v2 {
                    Err(missing("info.pieces or info.meta version"))
                } else {
                    match piece_length_of(info, has_v2) {
                        Err(failure) => Err(failure),
                        Ok(piece_length) => Ok(
                            Header {
                                root,
                                info,
                                raw_info: input.subrange(item.start, item.end),
                                name,
                                has_v1,
                                has_v2,
                                piece_length,
                            },
                        ),
                    }
                }
            },
        },
    }
}

/// The file layouts of a document.
pub struct Layout {
    pub v1_piece_hashes: Seq<Seq<u8>>,
    pub v1_files: Seq<FileModel>,
    pub files: Seq<FileModel>,
}

/// The v1 side of the layout.
pub open spec fn v1_side(h: Header) -> Result<(Seq<Seq<u8>>, Seq<FileModel>), Failure> {
    if !h.has_v1 {
        Ok((Seq::empty(), Seq::empty()))
    } else {
        match piece_hashes_of(h.info) {
            Err(failure) => Err(failure),
            Ok(hashes) => match v1_files_of(h.info, h.name) {
                Err(failure) => Err(failure),
                Ok(files) => match offsets_of(files) {
                    Err(failure) => Err(failure),
                    Ok(files) => Ok((hashes, files)),
                },
            },
        }
    }
}

pub open spec fn layout_of(h: Header) -> Result<Layout, Failure> {
    match v1_side(h) {
        Err(failure) => Err(failure),
        Ok((v1_piece_hashes, v1_files)) => {
            let listed = if h.has_v2 {
                match v2_files_of(h.info, h.name) {
                    Err(failure) => Err(failure),
                    Ok(files) => offsets_of(files),
                }
            } else {
                Ok(v1_files)
            };
            match listed {
                Err(failure) => Err(failure),
                Ok(files) => if h.has_v1 && duplicate_of(v1_files) is Some {
                    Err(duplicate_of(v1_files)->0)
                } else if duplicate_of(files) is Some {
                    Err(duplicate_of(files)->0)
                } else if h.has_v1 && h.has_v2 && hybrid_failure(
                    v1_files,
                    files,
                    h.piece_length,
                ) is Some {
                    Err(hybrid_failure(v1_files, files, h.piece_length)->0)
                } else {
                    Ok(Layout { v1_piece_hashes, v1_files, files })
                },
            }
        },
    }
}

/// A document put together from its parts.
pub open spec fn assembled(
    input: Seq<u8>,
    h: Header,
    layout: Layout,
    layers: Map<Seq<u8>, Seq<Seq<u8>>>,
) -> Result<MetaModel, Failure> {
    let total_length = total_of(layout.files);
    let piece_space_length = if h.has_v1 {
        total_of(layout.v1_files)
    } else {
        total_length
    };
    let expected = div_ceil_of(piece_space_length, h.piece_length);
    if h.has_v1 && layout.v1_piece_hashes.len() != expected {
        Err(
            Failure::Plain(
                MetainfoError::V1PieceCount {
                    expected: expected as u64,
                    actual: layout.v1_piece_hashes.len() as usize,
                },
            ),
        )
    } else {
        match optional_integer_at(h.info, "private", "info.private") {
            Err(failure) => Err(failure),
            Ok(private) => Ok(
                MetaModel {
                    raw: input,
                    name: h.name,
                    version: if h.has_v1 && h.has_v2 {
                        TorrentVersion::Hybrid
                    } else if h.has_v1 {
                        TorrentVersion::V1
                    } else {
                        TorrentVersion::V2
                    },
                    v1_info_hash: if h.has_v1 {
                        Some(sha1_of(h.raw_info))
                    } else {
                        None
                    },
                    v2_info_hash: if h.has_v2 {
                        Some(sha256_of(h.raw_info))
                    } else {
                        None
                    },
                    piece_length: h.piece_length,
                    v1_piece_hashes: layout.v1_piece_hashes,
                    piece_layers: layers,
                    files: layout.files,
                    v1_files: layout.v1_files,
                    total_length,
                    piece_space_length,
                    trackers: trackers_of(h.root),
                    web_seeds: web_seeds_of(h.root),
                    private: private == Some(1int),
                },
            ),
        }
    }
}

/// The document that the bytes of a metainfo file describe, or the first thing
/// that is wrong with them.
pub open spec fn metainfo_of(input: Seq<u8>, limits: BencodeLimits, required: bool) -> Result<
    MetaModel,
    Failure,
> {
    match parse_whole(input, limits) {
        Err(error) => Err(Failure::Plain(MetainfoError::Bencode(error))),
        Ok(root) => match header_of(input, root) {
            Err(failure) => Err(failure),
            Ok(h) => match layout_of(h) {
                Err(failure) => Err(failure),
                Ok(layout) => if h.has_v2 {
                    match piece_layers_of(h.root, layout.files, h.piece_length, required) {
                        Err(failure) => Err(failure),
                        Ok(layers) => assembled(input, h, layout, layers),
                    }
                } else {
                    assembled(input, h, layout, Map::empty())
                },
            },
        },
    }
}

} // verus!
