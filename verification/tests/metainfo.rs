//! Metainfo documents.

use dendrite::bencode::{BencodeLimits, DecodeError};
use dendrite::hash::{hash_pair, Sha256Hash};
use dendrite::metainfo::{Metainfo, MetainfoError, TorrentVersion};
use dendrite::path::{PathError, TorrentPath};
use dendrite::path_order::find_collision;

#[test]
fn parses_safe_single_file_v1_and_hashes_original_info() {
    let input = b"d8:announce14:http://tracker4:infod6:lengthi4e4:name4:test12:piece lengthi4e6:pieces20:aaaaaaaaaaaaaaaaaaaaee";
    let parsed = Metainfo::parse(input, BencodeLimits::default());
    let metainfo = parsed.as_ref().ok();
    assert_eq!(metainfo.map(|value| value.name.as_str()), Some("test"));
    assert_eq!(metainfo.map(|value| value.total_length), Some(4));
    assert!(metainfo.and_then(|value| value.v1_info_hash).is_some());
}

#[test]
fn rejects_negative_lengths() {
    let input = b"d4:infod6:lengthi-1e4:name4:test12:piece lengthi4e6:pieces0:ee";
    assert!(matches!(
        Metainfo::parse(input, BencodeLimits::default()),
        Err(MetainfoError::IntegerRange {
            field: "info.length"
        })
    ));
}

#[test]
fn rejects_traversal_components() {
    let input = b"d4:infod5:filesld6:lengthi1e4:pathl2:..1:aeee4:name4:root12:piece lengthi1e6:pieces20:aaaaaaaaaaaaaaaaaaaaee";
    assert!(matches!(
        Metainfo::parse(input, BencodeLimits::default()),
        Err(MetainfoError::Path(_))
    ));
}

#[test]
fn rejects_case_and_file_directory_collisions_on_portable_filesystems() {
    let case_collision = b"d4:infod5:filesld6:lengthi1e4:pathl1:Aeed6:lengthi1e4:pathl1:aeee4:name4:root12:piece lengthi4e6:pieces20:aaaaaaaaaaaaaaaaaaaaee";
    assert!(matches!(
        Metainfo::parse(case_collision, BencodeLimits::default()),
        Err(MetainfoError::DuplicatePath(_))
    ));
    let prefix_collision = b"d4:infod5:filesld6:lengthi1e4:pathl3:direed6:lengthi1e4:pathl3:dir6:nestedeee4:name4:root12:piece lengthi4e6:pieces20:aaaaaaaaaaaaaaaaaaaaee";
    assert!(matches!(
        Metainfo::parse(prefix_collision, BencodeLimits::default()),
        Err(MetainfoError::DuplicatePath(_))
    ));
}

#[test]
fn validates_v2_piece_layers_against_file_roots() -> Result<(), MetainfoError> {
    let first = Sha256Hash::from_bytes([1; 32]);
    let second = Sha256Hash::from_bytes([2; 32]);
    let root = hash_pair(first, second);
    let input = v2_metainfo(root, first, second);
    let parsed = Metainfo::parse(&input, BencodeLimits::default())?;
    assert_eq!(parsed.piece_layers.get(&root), Some(&vec![first, second]));

    let corrupted = v2_metainfo(root, first, Sha256Hash::from_bytes([3; 32]));
    assert!(matches!(
        Metainfo::parse(&corrupted, BencodeLimits::default()),
        Err(MetainfoError::PieceLayerRoot(value)) if value == root
    ));
    Ok(())
}

fn v2_metainfo(root: Sha256Hash, first: Sha256Hash, second: Sha256Hash) -> Vec<u8> {
    let mut input = b"d4:infod9:file treed4:filed0:d6:lengthi32768e11:pieces root32:".to_vec();
    input.extend_from_slice(root.as_bytes());
    input.extend_from_slice(
        b"eee12:meta versioni2e4:name4:test12:piece lengthi16384ee12:piece layersd32:",
    );
    input.extend_from_slice(root.as_bytes());
    input.extend_from_slice(b"64:");
    input.extend_from_slice(first.as_bytes());
    input.extend_from_slice(second.as_bytes());
    input.extend_from_slice(b"ee");
    input
}

fn parse_text(input: &str) -> Result<Metainfo, MetainfoError> {
    Metainfo::parse(input.as_bytes(), BencodeLimits::default())
}

fn fails_with(input: &str, message: &str) {
    assert_eq!(parse_text(input).unwrap_err().message(), message);
}

#[test]
fn the_info_hash_is_the_digest_of_the_bytes_as_they_stand() {
    let input = "d4:infod6:lengthi4e4:name4:test12:piece lengthi4e6:pieces20:aaaaaaaaaaaaaaaaaaaaee";
    let metainfo = parse_text(input).unwrap();
    let digest = metainfo.v1_info_hash.unwrap();
    let expected: [u8; 20] = [
        0x34, 0x4b, 0x6e, 0x7a, 0x01, 0x8f, 0x66, 0x3a, 0xab, 0x6e, 0xcc, 0xf3, 0xf4, 0xff, 0x78,
        0x80, 0xbc, 0x71, 0x4e, 0xdf,
    ];
    assert_eq!(digest.as_bytes(), &expected);
    assert_eq!(metainfo.version, TorrentVersion::V1);
    assert_eq!(metainfo.raw, input.as_bytes());
    assert_eq!(metainfo.v1_piece_hashes.len(), 1);
    assert_eq!(metainfo.v1_piece_hashes[0].as_bytes(), b"aaaaaaaaaaaaaaaaaaaa");
}

#[test]
fn files_are_laid_out_one_behind_the_other() {
    let metainfo = parse_text("d4:infod5:filesld6:lengthi3e4:pathl1:aeed6:lengthi4e4:pathl1:bee4:attr1:pee4:name4:root12:piece lengthi16e6:pieces20:aaaaaaaaaaaaaaaaaaaaee");
    assert!(metainfo.is_err(), "keys of a file are ordered too");
    let metainfo = parse_text("d4:infod5:filesld6:lengthi3e4:pathl1:aeed4:attr1:p6:lengthi4e4:pathl1:beee4:name4:root12:piece lengthi16e6:pieces20:aaaaaaaaaaaaaaaaaaaaee").unwrap();
    assert_eq!(metainfo.files.len(), 2);
    assert_eq!(metainfo.files[0].path.components().as_slice(), ["root", "a"]);
    assert_eq!(metainfo.files[0].wire_offset, 0);
    assert!(!metainfo.files[0].padding);
    assert_eq!(metainfo.files[1].wire_offset, 3);
    assert!(metainfo.files[1].padding);
    assert_eq!(metainfo.piece_space_length, 7);
}

#[test]
fn trackers_web_seeds_and_privacy_are_read() {
    let metainfo = parse_text("d8:announce8:http://a13:announce-listll8:http://b8:http://cel8:http://dee4:infod6:lengthi4e4:name4:test12:piece lengthi4e6:pieces20:aaaaaaaaaaaaaaaaaaaa7:privatei1ee8:url-listl8:http://w8:http://xee").unwrap();
    assert_eq!(metainfo.trackers, vec![vec!["http://b", "http://c"], vec!["http://d"]]);
    assert_eq!(metainfo.web_seeds, ["http://w", "http://x"]);
    assert!(metainfo.private);
    let single = parse_text("d8:announce8:http://a4:infod6:lengthi4e4:name4:test12:piece lengthi4e6:pieces20:aaaaaaaaaaaaaaaaaaaae8:url-list8:http://we").unwrap();
    assert_eq!(single.trackers, vec![vec!["http://a"]]);
    assert_eq!(single.web_seeds, ["http://w"]);
    assert!(!single.private);
}

#[test]
fn every_defect_has_its_error() {
    assert!(matches!(
        parse_text("d"),
        Err(MetainfoError::Bencode(DecodeError::UnexpectedEof { .. }))
    ));
    assert!(matches!(parse_text("i1e"), Err(MetainfoError::RootType)));
    assert!(matches!(parse_text("de"), Err(MetainfoError::Field(_))));
    assert!(matches!(
        parse_text("d4:infod6:lengthi4e4:name1:\u{7f}12:piece lengthi4e6:pieces19:aaaaaaaaaaaaaaaaaaaee"),
        Err(MetainfoError::InvalidV1Pieces)
    ));
    assert!(matches!(
        parse_text("d4:infod6:lengthi4e4:name4:test12:piece lengthi2e6:pieces20:aaaaaaaaaaaaaaaaaaaaee"),
        Err(MetainfoError::V1PieceCount { expected: 2, actual: 1 })
    ));
    assert!(matches!(
        parse_text("d4:infod5:filesle4:name4:root12:piece lengthi4e6:pieces0:ee"),
        Err(MetainfoError::EmptyFiles)
    ));
    assert!(matches!(
        Metainfo::parse(b"d4:infod6:lengthi4e4:name1:\xff12:piece lengthi4e6:pieces20:aaaaaaaaaaaaaaaaaaaaee", BencodeLimits::default()),
        Err(MetainfoError::Utf8 { .. })
    ));
    assert!(matches!(
        parse_text("d4:infod9:file treede12:meta versioni2e4:name4:test12:piece lengthi8192eee"),
        Err(MetainfoError::InvalidV2PieceLength)
    ));
    assert!(matches!(
        parse_text("d4:infod9:file treed4:filed0:d6:lengthi1eeee12:meta versioni2e4:name4:test12:piece lengthi16384eee"),
        Err(MetainfoError::MissingPiecesRoot)
    ));
    assert!(matches!(
        parse_text("d4:infod5:filesld6:lengthi9223372036854775807e4:pathl1:aeed6:lengthi9223372036854775807e4:pathl1:beed6:lengthi9223372036854775807e4:pathl1:ceee4:name4:root12:piece lengthi4e6:pieces0:ee"),
        Err(MetainfoError::TotalLengthOverflow)
    ));
    assert!(matches!(
        parse_text("d4:infod9:file treed4:filed0:d4:attr1:l6:lengthi0eeee12:meta versioni2e4:name4:test12:piece lengthi16384eee"),
        Err(MetainfoError::SymlinkUnsupported)
    ));
}

#[test]
fn layers_have_to_be_there_and_wanted() {
    let first = Sha256Hash::from_bytes([1; 32]);
    let second = Sha256Hash::from_bytes([2; 32]);
    let root = hash_pair(first, second);
    let mut bare = b"d4:infod9:file treed4:filed0:d6:lengthi32768e11:pieces root32:".to_vec();
    bare.extend_from_slice(root.as_bytes());
    bare.extend_from_slice(b"eee12:meta versioni2e4:name4:test12:piece lengthi16384eee");
    assert!(matches!(
        Metainfo::parse(&bare, BencodeLimits::default()),
        Err(MetainfoError::PieceLayer(value)) if value == root
    ));
    let relaxed =
        Metainfo::parse_allow_missing_piece_layers(&bare, BencodeLimits::default()).unwrap();
    assert_eq!(relaxed.version, TorrentVersion::V2);
    assert_eq!(relaxed.piece_layers.len(), 0);

    let mut stray = b"d4:infod9:file treed4:filed0:d6:lengthi16384e11:pieces root32:".to_vec();
    stray.extend_from_slice(root.as_bytes());
    stray.extend_from_slice(
        b"eee12:meta versioni2e4:name4:test12:piece lengthi16384ee12:piece layersd32:",
    );
    stray.extend_from_slice(root.as_bytes());
    stray.extend_from_slice(b"32:");
    stray.extend_from_slice(first.as_bytes());
    stray.extend_from_slice(b"ee");
    assert!(matches!(
        Metainfo::parse(&stray, BencodeLimits::default()),
        Err(MetainfoError::UnreferencedPieceLayer)
    ));
}

#[test]
fn errors_say_which_field_is_wrong() {
    fails_with("i1e", "metainfo root must be a dictionary");
    fails_with(
        "d4:infod6:lengthi-1e4:name4:test12:piece lengthi4e6:pieces0:ee",
        "integer field info.length is outside its permitted range",
    );
    fails_with(
        "d4:infod5:filesld6:lengthi1e4:pathl1:Aeed6:lengthi1e4:pathl1:aeee4:name4:root12:piece lengthi4e6:pieces20:aaaaaaaaaaaaaaaaaaaaee",
        "torrent contains duplicate path root/a",
    );
}

fn path(components: &[&str]) -> Result<TorrentPath, PathError> {
    TorrentPath::new(components.iter().map(|text| (*text).to_owned()).collect())
}

#[test]
fn paths_stay_inside_their_directory() {
    assert_eq!(path(&["a", "b"]).unwrap().components().as_slice(), ["a", "b"]);
    assert_eq!(path(&[]).unwrap_err(), PathError::Empty);
    assert_eq!(path(&["a", ""]).unwrap_err(), PathError::EmptyComponent);
    assert_eq!(path(&[".."]).unwrap_err(), PathError::Traversal);
    assert_eq!(path(&["a", "."]).unwrap_err(), PathError::Traversal);
    assert_eq!(path(&["a/b"]).unwrap_err(), PathError::Separator);
    assert_eq!(path(&["a\\b"]).unwrap_err(), PathError::Separator);
    assert_eq!(path(&["a\0"]).unwrap_err(), PathError::Separator);
    assert_eq!(path(&["..."]).unwrap().to_text(), "...");
}

#[test]
fn collisions_ignore_letter_case() {
    let straight = [path(&["x", "A"]).unwrap(), path(&["y"]).unwrap(), path(&["X", "a", "z"]).unwrap()];
    let paths: Vec<&TorrentPath> = straight.iter().collect();
    assert_eq!(find_collision(&paths), Some(2));
    let apart = [path(&["x", "A"]).unwrap(), path(&["x", "AB"]).unwrap()];
    let paths: Vec<&TorrentPath> = apart.iter().collect();
    assert_eq!(find_collision(&paths), None);
    let sharp = [path(&["\u{c4}"]).unwrap(), path(&["\u{e4}"]).unwrap()];
    let paths: Vec<&TorrentPath> = sharp.iter().collect();
    assert!(find_collision(&paths).is_some());
}
