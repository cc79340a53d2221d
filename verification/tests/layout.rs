//! Where pieces are, and whether they are right.

use dendrite::bencode::BencodeLimits;
use dendrite::bitfield::{all_complete, bit_is_set, complete_bitfield, set_bit, useful_piece_count};
use dendrite::layout::{
    completed_bytes, file_segments, piece_count, piece_length, piece_start, v2_piece_location,
    wire_info_hash,
};
use dendrite::metainfo::{FileEntry, Metainfo};
use dendrite::path::TorrentPath;
use dendrite::piece_io::{assemble_piece, plan_piece_read, plan_piece_write};
use dendrite::rates::BLOCK_BYTES;
use dendrite::verify::verify_piece;
use sha1::{Digest, Sha1};
use sha2::Sha256;

fn path(components: &[&str]) -> TorrentPath {
    TorrentPath::new(components.iter().map(|text| (*text).to_owned()).collect()).unwrap()
}

fn two_file_v2_metainfo(first: &[u8], second: &[u8]) -> Vec<u8> {
    let first_root: [u8; 32] = Sha256::digest(first).into();
    let second_root: [u8; 32] = Sha256::digest(second).into();
    let mut info = format!(
        "d9:file treed1:ad0:d6:lengthi{}e11:pieces root32:",
        first.len()
    )
    .into_bytes();
    info.extend_from_slice(&first_root);
    info.extend_from_slice(
        format!("ee1:bd0:d6:lengthi{}e11:pieces root32:", second.len()).as_bytes(),
    );
    info.extend_from_slice(&second_root);
    info.extend_from_slice(b"eee12:meta versioni2e4:name4:root12:piece lengthi16384ee");
    let mut metainfo = b"d4:info".to_vec();
    metainfo.extend_from_slice(&info);
    metainfo.push(b'e');
    metainfo
}

fn hybrid_metainfo(first: &[u8], second: &[u8]) -> (Vec<u8>, Vec<u8>, Vec<u8>) {
    let padding = BLOCK_BYTES - first.len();
    let first_root: [u8; 32] = Sha256::digest(first).into();
    let second_root: [u8; 32] = Sha256::digest(second).into();
    let mut first_piece = first.to_vec();
    first_piece.resize(BLOCK_BYTES, 0);
    let second_piece = second.to_vec();
    let first_v1: [u8; 20] = Sha1::digest(&first_piece).into();
    let second_v1: [u8; 20] = Sha1::digest(&second_piece).into();
    let mut info = format!(
        "d9:file treed1:ad0:d6:lengthi{}e11:pieces root32:",
        first.len()
    )
    .into_bytes();
    info.extend_from_slice(&first_root);
    info.extend_from_slice(
        format!("ee1:bd0:d6:lengthi{}e11:pieces root32:", second.len()).as_bytes(),
    );
    info.extend_from_slice(&second_root);
    info.extend_from_slice(
        format!("eee5:filesld6:lengthi{}e4:pathl1:aee", first.len()).as_bytes(),
    );
    info.extend_from_slice(
        format!(
            "d4:attr1:p6:lengthi{padding}e4:pathl4:.pad{}:{padding}ee",
            padding.to_string().len()
        )
        .as_bytes(),
    );
    info.extend_from_slice(format!("d6:lengthi{}e4:pathl1:bee", second.len()).as_bytes());
    info.extend_from_slice(b"e12:meta versioni2e4:name4:root12:piece lengthi16384e6:pieces40:");
    info.extend_from_slice(&first_v1);
    info.extend_from_slice(&second_v1);
    info.extend_from_slice(b"ee");
    let mut metainfo = b"d4:info".to_vec();
    metainfo.extend_from_slice(&info);
    (metainfo, first_piece, second_piece)
}

#[test]
fn file_segments_cross_boundaries_without_escape() {
    let files = vec![
        FileEntry {
            path: path(&["root", "a"]),
            length: 3,
            pieces_root: None,
            padding: false,
            wire_offset: 0,
        },
        FileEntry {
            path: path(&["root", "b"]),
            length: 5,
            pieces_root: None,
            padding: false,
            wire_offset: 3,
        },
    ];
    let segments = file_segments(&files, 2, 4).unwrap();
    assert_eq!(segments.len(), 2);
    assert_eq!((segments[0].file_offset, segments[0].length), (2, 1));
    assert_eq!((segments[1].file_offset, segments[1].length), (0, 3));
}

#[test]
fn v2_multifile_layout_aligns_every_file_to_a_piece() {
    let first = b"first file";
    let second = b"second file has a different length";
    let raw = two_file_v2_metainfo(first, second);
    let metainfo = Metainfo::parse(&raw, BencodeLimits::default()).unwrap();
    assert_eq!(piece_count(&metainfo).unwrap(), 2);
    let (first_file, first_local, first_offset) = v2_piece_location(&metainfo, 0).unwrap();
    let (second_file, second_local, second_offset) = v2_piece_location(&metainfo, 1).unwrap();
    assert_eq!((first_local, first_offset), (0, 0));
    assert_eq!((second_local, second_offset), (0, 0));
    assert_ne!(first_file.path, second_file.path);
    assert!(verify_piece(&metainfo, 0, first).unwrap());
    assert!(verify_piece(&metainfo, 1, second).unwrap());
    assert!(!verify_piece(&metainfo, 1, first).unwrap());
}

#[test]
fn hybrid_layout_verifies_both_hashes_and_excludes_padding_from_progress() {
    let first = b"alpha";
    let second = b"the second aligned file";
    let (raw, first_piece, second_piece) = hybrid_metainfo(first, second);
    let metainfo = Metainfo::parse(&raw, BencodeLimits::default()).unwrap();
    assert_eq!(metainfo.total_length, (first.len() + second.len()) as u64);
    assert_eq!(
        metainfo.piece_space_length,
        (BLOCK_BYTES + second.len()) as u64
    );
    assert!(verify_piece(&metainfo, 0, &first_piece).unwrap());
    assert!(verify_piece(&metainfo, 1, &second_piece).unwrap());
    let mut corrupted = first_piece;
    corrupted[0] ^= 0xff;
    assert!(!verify_piece(&metainfo, 0, &corrupted).unwrap());
    assert_eq!(
        completed_bytes(&metainfo, &[0b1100_0000]).unwrap(),
        metainfo.total_length
    );
}

#[test]
fn pieces_of_a_pure_v2_torrent_hash_to_their_layer() {
    let mut payload = vec![7_u8; 2 * 16384];
    payload.truncate(20000);
    let leaves: Vec<[u8; 32]> = payload
        .chunks(16384)
        .map(|leaf| Sha256::digest(leaf).into())
        .collect();
    let mut pair = leaves[0].to_vec();
    pair.extend_from_slice(&leaves[1]);
    let root: [u8; 32] = Sha256::digest(&pair).into();
    let mut raw = b"d4:infod9:file treed4:filed0:d6:lengthi20000e11:pieces root32:".to_vec();
    raw.extend_from_slice(&root);
    raw.extend_from_slice(
        b"eee12:meta versioni2e4:name4:root12:piece lengthi16384ee12:piece layersd32:",
    );
    raw.extend_from_slice(&root);
    raw.extend_from_slice(b"64:");
    raw.extend_from_slice(&pair);
    raw.extend_from_slice(b"ee");
    let metainfo = Metainfo::parse(&raw, BencodeLimits::default()).unwrap();
    assert_eq!(piece_count(&metainfo).unwrap(), 2);
    assert_eq!(piece_length(&metainfo, 1).unwrap(), 20000 - 16384);
    assert!(verify_piece(&metainfo, 0, &payload[..16384]).unwrap());
    assert!(verify_piece(&metainfo, 1, &payload[16384..]).unwrap());
    assert!(!verify_piece(&metainfo, 1, &payload[..16384]).unwrap());
    let digest = metainfo.v2_info_hash.unwrap();
    assert_eq!(
        wire_info_hash(&metainfo).unwrap().as_bytes(),
        &digest.as_bytes()[..20],
        "a pure v2 torrent goes by a shortened hash"
    );
}

#[test]
fn a_read_gives_back_what_a_write_wrote() {
    let (raw, first_piece, _) = hybrid_metainfo(b"alpha", b"beta");
    let metainfo = Metainfo::parse(&raw, BencodeLimits::default()).unwrap();
    let writes = plan_piece_write(&metainfo, 0, &first_piece).unwrap();
    assert_eq!(writes.len(), 1, "padding is not stored");
    assert_eq!(writes[0].data, b"alpha");
    let (segments, length) = plan_piece_read(&metainfo, 0).unwrap();
    assert_eq!(segments.len(), 2);
    assert_eq!(length, 16384);
    let parts: Vec<Option<Vec<u8>>> = segments
        .iter()
        .map(|segment| (!segment.file.padding).then(|| b"alpha".to_vec()))
        .collect();
    let piece = assemble_piece(&segments, &parts, length);
    assert_eq!(piece, Some(first_piece));
}

#[test]
fn pieces_outside_the_layout_are_refused() {
    let (raw, _, _) = hybrid_metainfo(b"alpha", b"beta");
    let metainfo = Metainfo::parse(&raw, BencodeLimits::default()).unwrap();
    assert_eq!(piece_start(&metainfo, 1).unwrap(), 16384);
    assert_eq!(
        piece_length(&metainfo, 2).unwrap_err().message(),
        "torrent arithmetic overflow"
    );
    let raw = two_file_v2_metainfo(b"a", b"b");
    let metainfo = Metainfo::parse(&raw, BencodeLimits::default()).unwrap();
    assert_eq!(
        piece_length(&metainfo, 2).unwrap_err().message(),
        "piece index is outside the torrent layout"
    );
}

#[test]
fn bits_are_counted_from_the_highest() {
    let mut bits = vec![0_u8; 2];
    set_bit(&mut bits, 0);
    set_bit(&mut bits, 9);
    set_bit(&mut bits, 16);
    assert_eq!(bits, [0b1000_0000, 0b0100_0000]);
    assert!(bit_is_set(&bits, 9));
    assert!(!bit_is_set(&bits, 16));
    assert_eq!(complete_bitfield(10), [0xff, 0b1100_0000]);
    assert!(all_complete(&complete_bitfield(10), 10));
    assert!(!all_complete(&bits, 10));
    assert_eq!(useful_piece_count(&complete_bitfield(10), &bits, 10), 8);
    assert_eq!(useful_piece_count(&bits, &complete_bitfield(10), 10), 0);
}
