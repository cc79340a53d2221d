//! Magnet links.

use dendrite::hash::Sha1Hash;
use dendrite::location::UrlParts;
use dendrite::magnet::{Magnet, MagnetError};

#[test]
fn parses_v1_hex_and_v2_multihash() -> Result<(), MagnetError> {
    let uri = "magnet:?xt=urn:btih:0123456789abcdef0123456789abcdef01234567&xt=urn:btmh:1220aaaaaaaaaaaaaaaaaaaaaaaaaaaaaaaaaaaaaaaaaaaaaaaaaaaaaaaaaaaaaaaa&dn=example&tr=https%3A%2F%2Ftracker.example%2Fannounce";
    let magnet = Magnet::parse(uri)?;
    assert!(magnet.v1_info_hash.is_some());
    assert!(magnet.v2_info_hash.is_some());
    assert_eq!(magnet.display_name.as_deref(), Some("example"));
    assert_eq!(magnet.trackers, ["https://tracker.example/announce"]);
    Ok(())
}

#[test]
fn rejects_missing_topics() {
    assert_eq!(
        Magnet::parse("magnet:?dn=test"),
        Err(MagnetError::MissingTopic)
    );
}

#[test]
fn reads_the_digits_of_a_v1_topic() {
    let magnet =
        Magnet::parse("magnet:?xt=urn:btih:0123456789abcdef0123456789ABCDEF01234567").unwrap();
    let mut expected = [0_u8; 20];
    for (at, byte) in expected.iter_mut().enumerate() {
        *byte = [0x01, 0x23, 0x45, 0x67, 0x89, 0xab, 0xcd, 0xef][at % 8];
    }
    assert_eq!(magnet.v1_info_hash.unwrap().as_bytes(), &expected);
    assert!(magnet.v2_info_hash.is_none());
}

#[test]
fn reads_base32_topics() {
    let magnet = Magnet::parse("magnet:?xt=urn:btih:AERUKZ4JVPG66AJDIVTYTK6N54ASGRLH").unwrap();
    let hexadecimal =
        Magnet::parse("magnet:?xt=urn:btih:0123456789abcdef0123456789abcdef01234567").unwrap();
    assert_eq!(
        magnet.v1_info_hash.unwrap().as_bytes(),
        hexadecimal.v1_info_hash.unwrap().as_bytes()
    );
}

#[test]
fn reads_multibase_topics() {
    let digest = "aaaaaaaaaaaaaaaaaaaaaaaaaaaaaaaaaaaaaaaaaaaaaaaaaaaaaaaaaaaaaaaa";
    let marked = Magnet::parse(&format!("magnet:?xt=urn:btmh:f1220{digest}")).unwrap();
    assert_eq!(marked.v2_info_hash.unwrap().as_bytes(), &[0xaa; 32]);
}

#[test]
fn refuses_bad_links() {
    assert!(matches!(Magnet::parse("not a link"), Err(MagnetError::Url(_))));
    assert_eq!(
        Magnet::parse("http://example.org/?xt=urn:btih:0"),
        Err(MagnetError::Scheme)
    );
    assert_eq!(
        Magnet::parse("magnet:?xt=urn:btih:0123"),
        Err(MagnetError::InvalidV1)
    );
    assert_eq!(
        Magnet::parse("magnet:?xt=urn:btmh:1220aa"),
        Err(MagnetError::InvalidV2)
    );
}

#[test]
fn trackers_keep_their_order() {
    let magnet = Magnet::parse(
        "magnet:?xt=urn:btih:0123456789abcdef0123456789abcdef01234567&tr=udp%3A%2F%2Fb&tr=udp%3A%2F%2Fa&ws=http%3A%2F%2Fseed",
    )
    .unwrap();
    assert_eq!(magnet.trackers, ["udp://b", "udp://a"]);
    assert_eq!(magnet.web_seeds, ["http://seed"]);
}

#[test]
fn a_link_is_read_from_its_parts() {
    let parts = UrlParts {
        text: String::new(),
        scheme: "magnet".to_owned(),
        path: String::new(),
        host: None,
        port: None,
        pairs: vec![(
            "xt".to_owned(),
            "urn:btih:0000000000000000000000000000000000000001".to_owned(),
        )],
    };
    let magnet = Magnet::from_parts(&parts).unwrap();
    let mut expected = [0_u8; 20];
    expected[19] = 1;
    assert!(magnet.v1_info_hash.unwrap().same(&Sha1Hash::from_bytes(expected)));
}

#[test]
fn link_errors_say_what_is_wrong() {
    assert_eq!(
        MagnetError::Scheme.message(),
        "URI scheme must be magnet"
    );
}

#[test]
fn a_copied_magnet_is_the_same_magnet() {
    let magnet = Magnet::parse(
        "magnet:?xt=urn:btih:0123456789abcdef0123456789abcdef01234567&dn=example&tr=https%3A%2F%2Ftracker.example%2Fannounce",
    )
    .unwrap();
    assert_eq!(magnet.clone(), magnet);
}
