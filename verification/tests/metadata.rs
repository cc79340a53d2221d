//! Metadata from peers: info dictionaries and piece layers.

use bytes::Bytes;
use dendrite::address::{IpAddress, SocketAddress};
use dendrite::bencode::BencodeLimits;
use dendrite::error::ActorError;
use dendrite::hash::{hash_pair, merkle_root_from_layer, zero_hash, Sha1Hash, Sha256Hash};
use dendrite::hash_tree::{answer_hash_request, HashRequest};
use dendrite::info_dict::{document_limits, raw_info_dictionary, wrap_info_dictionary};
use dendrite::magnet::Magnet;
use dendrite::metadata::{
    needs_layers, negotiated, read_final, read_hashes, read_preliminary, LayerFetch,
    MetadataExchange, MetadataSearch,
};
use dendrite::metainfo::{Metainfo, MetainfoError};
use dendrite::piece_layers::PieceLayers;
use sha1::{Digest, Sha1};
use sha2::Sha256;

const INFO: &[u8] = b"d6:lengthi4e4:name4:test12:piece lengthi4e6:pieces20:aaaaaaaaaaaaaaaaaaaae";

fn digest(byte: u8) -> Sha256Hash {
    Sha256Hash::from_bytes([byte; 32])
}

fn v2_document(length: usize, root: Sha256Hash) -> Vec<u8> {
    let mut raw =
        format!("d4:infod9:file treed4:filed0:d6:lengthi{length}e11:pieces root32:").into_bytes();
    raw.extend_from_slice(root.as_bytes());
    raw.extend_from_slice(b"eee12:meta versioni2e4:name4:root12:piece lengthi16384eee");
    raw
}

fn link(v1: Option<Sha1Hash>, v2: Option<Sha256Hash>) -> Magnet {
    Magnet {
        v1_info_hash: v1,
        v2_info_hash: v2,
        display_name: None,
        trackers: vec!["http://tracker".to_owned()],
        web_seeds: Vec::new(),
    }
}

#[test]
fn unwrapping_gives_the_info_dictionary_back() {
    let layers = PieceLayers::new();
    let tracker = "http://tracker".to_owned();
    let raw = wrap_info_dictionary(INFO, Some(&tracker), &layers);
    let mut expected = b"d8:announce14:http://tracker4:info".to_vec();
    expected.extend_from_slice(INFO);
    expected.push(b'e');
    assert_eq!(raw, expected);
    assert_eq!(raw_info_dictionary(&raw, 4096).unwrap(), INFO);
    assert_eq!(document_limits(4096).input_bytes, 4096);
    assert_eq!(
        raw_info_dictionary(b"de", 4096).unwrap_err().message(),
        "metainfo is invalid: metainfo has no info dictionary"
    );
    assert_eq!(
        raw_info_dictionary(b"le", 4096).unwrap_err().message(),
        "metainfo is invalid: metainfo root is not a dictionary"
    );
}

#[test]
fn layers_are_wrapped_in_the_order_of_their_roots() {
    let mut layers = PieceLayers::new();
    layers.insert(digest(9), vec![digest(1)]);
    layers.insert(digest(3), vec![digest(2)]);
    assert_eq!(layers.root_at(0), &digest(3));
    assert_eq!(layers.layer_at(1), &vec![digest(1)]);
    assert_eq!(layers.find(&digest(9)), Some(1));
    let raw = wrap_info_dictionary(b"de", None, &layers);
    let mut expected = b"d4:infode12:piece layersd32:".to_vec();
    expected.extend_from_slice(&[3; 32]);
    expected.extend_from_slice(b"32:");
    expected.extend_from_slice(&[2; 32]);
    expected.extend_from_slice(b"32:");
    expected.extend_from_slice(&[9; 32]);
    expected.extend_from_slice(b"32:");
    expected.extend_from_slice(&[1; 32]);
    expected.extend_from_slice(b"ee");
    assert_eq!(raw, expected);
}

#[test]
fn extensions_are_negotiated() {
    assert_eq!(negotiated(Some(3), Some(100)).unwrap(), (3, 100));
    assert_eq!(
        negotiated(None, Some(100)).unwrap_err().message(),
        "metadata exchange failed: peer does not advertise ut_metadata"
    );
    assert_eq!(
        negotiated(Some(3), None).unwrap_err().message(),
        "metadata exchange failed: peer did not provide metadata_size"
    );
    assert_eq!(
        negotiated(Some(3), Some(0)).unwrap_err().message(),
        "metadata exchange failed: metadata_size is zero"
    );
}

#[test]
fn metadata_blocks_may_come_in_any_order() {
    let size = 16384 + 10;
    let mut exchange = MetadataExchange::new(size);
    assert_eq!(exchange.next_request().unwrap(), Some(0));
    assert_eq!(exchange.next_request().unwrap(), Some(1));
    assert_eq!(exchange.next_request().unwrap(), None);
    exchange.receive_block(1, size, Bytes::from(vec![2; 10])).unwrap();
    assert!(!exchange.is_complete());
    exchange.receive_block(0, size, Bytes::from(vec![1; 16384])).unwrap();
    assert!(exchange.is_complete());
    let whole = exchange.finish().unwrap();
    assert_eq!(whole.len(), size);
    assert_eq!(whole[16383..16385], [1, 2]);
}

#[test]
fn hostile_metadata_blocks_are_refused() {
    let mut exchange = MetadataExchange::new(100);
    exchange.next_request().unwrap();
    assert!(exchange.receive_block(1, 100, Bytes::from(vec![0; 100])).is_err(), "no such block");
    let mut exchange = MetadataExchange::new(100);
    exchange.next_request().unwrap();
    assert!(exchange.receive_block(0, 99, Bytes::from(vec![0; 100])).is_err(), "another size");
    let mut exchange = MetadataExchange::new(100);
    exchange.next_request().unwrap();
    assert!(exchange.receive_block(0, 100, Bytes::from(vec![0; 99])).is_err(), "too short");
    let mut exchange = MetadataExchange::new(100);
    exchange.next_request().unwrap();
    exchange.receive_block(0, 100, Bytes::from(vec![0; 100])).unwrap();
    assert!(exchange.receive_block(0, 100, Bytes::from(vec![0; 100])).is_err(), "twice");
    assert!(matches!(MetadataExchange::new(100).rejected(0), ActorError::Metadata(_)));
}

#[test]
fn only_the_metadata_of_the_link_is_taken() {
    let right: [u8; 20] = Sha1::digest(INFO).into();
    let magnet = link(Some(Sha1Hash::from_bytes(right)), None);
    let metainfo = read_preliminary(INFO, &magnet, 4096).unwrap();
    assert_eq!(metainfo.name, "test");
    let (raw, metainfo) = read_final(INFO, &magnet, &PieceLayers::new(), 4096).unwrap();
    assert_eq!(metainfo.raw, raw);
    assert_eq!(metainfo.trackers, vec![vec!["http://tracker"]]);

    let wrong = link(Some(Sha1Hash::from_bytes([7; 20])), None);
    assert_eq!(
        read_preliminary(INFO, &wrong, 4096).unwrap_err().message(),
        "metadata exchange failed: peer returned metadata with the wrong SHA-1 info hash"
    );
    assert_eq!(
        read_final(INFO, &wrong, &PieceLayers::new(), 4096).unwrap_err().message(),
        "metadata exchange failed: parsed metadata does not match the magnet v1 identity"
    );
    let both = link(Some(Sha1Hash::from_bytes(right)), Some(digest(1)));
    assert_eq!(
        read_final(INFO, &both, &PieceLayers::new(), 4096).unwrap_err().message(),
        "metadata exchange failed: parsed metadata does not match the magnet v2 identity"
    );
    let sha256: [u8; 32] = Sha256::digest(INFO).into();
    let both = link(
        Some(Sha1Hash::from_bytes(right)),
        Some(Sha256Hash::from_bytes(sha256)),
    );
    assert!(read_final(INFO, &both, &PieceLayers::new(), 4096).is_ok());
}

#[test]
fn piece_layers_are_fetched_and_complete_the_document() {
    let root = hash_pair(digest(1), digest(2));
    let raw = v2_document(32768, root);
    let preliminary =
        Metainfo::parse_allow_missing_piece_layers(&raw, BencodeLimits::default()).unwrap();
    assert!(needs_layers(&preliminary));
    let mut fetch = LayerFetch::new();
    let run = fetch.next(&preliminary).unwrap().expect("one layer is missing");
    assert_eq!(run.request.pieces_root, root);
    assert_eq!((run.request.index, run.request.length, run.needed), (0, 2, 2));
    let mut bytes = digest(1).as_bytes().to_vec();
    bytes.extend_from_slice(digest(2).as_bytes());
    let hashes = read_hashes(&bytes, run.needed, 4096).unwrap();
    fetch.accept(&preliminary, run, hashes);
    assert!(fetch.next(&preliminary).unwrap().is_none());
    assert_eq!(fetch.layers.get(&root), Some(&vec![digest(1), digest(2)]));
    let info = raw_info_dictionary(&raw, 4096).unwrap();
    let complete = wrap_info_dictionary(&info, None, &fetch.layers);
    assert!(Metainfo::parse(&complete, BencodeLimits::default()).is_ok());
    assert!(read_hashes(&bytes, 2, 63).is_err());
    assert!(read_hashes(&bytes, 3, 4096).is_err());
}

#[test]
fn a_hash_answer_carries_its_proof() {
    let (first, second, third) = (digest(1), digest(2), digest(3));
    let proof = hash_pair(third, zero_hash(0));
    let root = hash_pair(hash_pair(first, second), proof);
    assert_eq!(merkle_root_from_layer(&[first, second, third], 0), root);
    let info = raw_info_dictionary(&v2_document(49152, root), 65536).unwrap();
    let mut layers = PieceLayers::new();
    layers.insert(root, vec![first, second, third]);
    let raw = wrap_info_dictionary(&info, None, &layers);
    let metainfo = Metainfo::parse(&raw, BencodeLimits::default()).unwrap();
    let request = HashRequest {
        pieces_root: root,
        base_layer: 0,
        index: 0,
        length: 2,
        proof_layers: 2,
    };
    let hashes = answer_hash_request(&metainfo, request).expect("the layer is there");
    assert_eq!(hashes.len(), 3 * 32);
    assert_eq!(&hashes[..32], first.as_bytes());
    assert_eq!(&hashes[32..64], second.as_bytes());
    assert_eq!(&hashes[64..], proof.as_bytes());
    assert!(answer_hash_request(&metainfo, HashRequest { length: 3, ..request }).is_none());
    assert!(answer_hash_request(&metainfo, HashRequest { index: 1, ..request }).is_none());
    assert!(answer_hash_request(&metainfo, HashRequest { base_layer: 1, ..request }).is_none());
    assert!(
        answer_hash_request(&metainfo, HashRequest { pieces_root: first, ..request }).is_none()
    );
}

#[test]
fn digests_follow_the_standard() {
    let mut pair = [0_u8; 64];
    pair[32..].fill(1);
    let expected: [u8; 32] = Sha256::digest(pair).into();
    assert_eq!(hash_pair(digest(0), digest(1)).as_bytes(), &expected);
    assert_eq!(zero_hash(0), digest(0));
    assert_eq!(zero_hash(1), hash_pair(digest(0), digest(0)));
    assert_eq!(
        hash_pair(digest(0), digest(0)).to_text(),
        "f5a5fd42d16a20302798ef6ed309979b43003d2320d9f0e8ea9831a92759fb4b"
    );
}

#[test]
fn metadata_is_asked_of_each_peer_once() {
    let peer = |last: u32| SocketAddress { ip: IpAddress::V4(last), port: 1 };
    let mut search = MetadataSearch::new();
    search.peers_found(&vec![peer(1), peer(2), peer(1)]);
    assert_eq!(search.next_attempt(), Some(peer(1)));
    assert_eq!(search.next_attempt(), Some(peer(2)));
    assert_eq!(search.next_attempt(), None);
    search.attempt_failed(ActorError::NoPeers);
    search.attempt_failed(ActorError::Metadata("bad".to_owned()));
    assert!(!search.is_exhausted());
    search.discovery_finished(None);
    assert!(search.is_exhausted());
    assert_eq!(search.give_up().message(), "metadata exchange failed: bad");
}

#[test]
fn an_answer_belongs_to_the_request_it_names() {
    let request = HashRequest {
        pieces_root: Sha256Hash::from_bytes([7; 32]),
        base_layer: 1,
        index: 2,
        length: 4,
        proof_layers: 3,
    };
    assert!(request.same(&request));
    let other = Sha256Hash::from_bytes([8; 32]);
    assert!(!request.same(&HashRequest { pieces_root: other, ..request }));
    assert!(!request.same(&HashRequest { base_layer: 0, ..request }));
    assert!(!request.same(&HashRequest { index: 0, ..request }));
    assert!(!request.same(&HashRequest { length: 2, ..request }));
    assert!(!request.same(&HashRequest { proof_layers: 0, ..request }));
}

#[test]
fn the_first_missing_layer_is_reported() {
    let (first, second) = (digest(1), digest(2));
    let mut raw = b"d4:infod9:file treed1:ad0:d6:lengthi32768e11:pieces root32:".to_vec();
    raw.extend_from_slice(first.as_bytes());
    raw.extend_from_slice(b"ee1:bd0:d6:lengthi32768e11:pieces root32:");
    raw.extend_from_slice(second.as_bytes());
    raw.extend_from_slice(b"eee12:meta versioni2e4:name4:root12:piece lengthi16384eee");
    let limits = BencodeLimits::default();
    assert!(Metainfo::parse_allow_missing_piece_layers(&raw, limits).is_ok());
    match Metainfo::parse(&raw, limits) {
        Err(MetainfoError::PieceLayer(root)) => assert_eq!(root, first),
        other => panic!("unexpected {other:?}"),
    }
}
