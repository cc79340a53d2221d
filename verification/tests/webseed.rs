//! Downloads from web servers.

use dendrite::address::IpAddress;
use dendrite::bencode::BencodeLimits;
use dendrite::error::ActorError;
use dendrite::layout::file_segments;
use dendrite::metainfo::Metainfo;
use dendrite::webseed::{
    assemble_web_seed_piece, check_web_seed_addresses, public_web_seed_ip, usable_web_seeds,
    web_seed_endpoint, web_seed_file_url, RangeRequest, RangeResponse, WebSeedSearch,
};

fn v4(a: u8, b: u8, c: u8, d: u8) -> IpAddress {
    IpAddress::V4(u32::from_be_bytes([a, b, c, d]))
}

/// An address from its first and last 64 bits.
fn v6(first: u64, last: u64) -> IpAddress {
    IpAddress::V6((u128::from(first) << 64) | u128::from(last))
}

#[test]
fn private_addresses_are_never_contacted() {
    for address in [
        v4(127, 0, 0, 1),
        v4(10, 0, 0, 1),
        v4(100, 64, 0, 1),
        v4(169, 254, 169, 254),
        v4(198, 18, 0, 1),
        v6(0, 1),
        v6(0xfe80_0000_0000_0000, 1),
        v6(0, 0xffff_7f00_0001),
        v4(0, 0, 0, 0),
        v4(172, 31, 255, 255),
        v4(192, 168, 0, 1),
        v4(224, 0, 0, 1),
        v4(255, 255, 255, 255),
        v6(0xfc00_0000_0000_0000, 1),
        v6(0x2001_0db8_0000_0000, 1),
        v6(0xff02_0000_0000_0000, 1),
    ] {
        assert!(!public_web_seed_ip(address), "{address:?}");
        assert!(check_web_seed_addresses(&vec![v4(8, 8, 8, 8), address]).is_err());
    }
    assert!(public_web_seed_ip(v4(8, 8, 8, 8)));
    assert!(public_web_seed_ip(v6(0x2606_4700_4700_0000, 0x1111)));
    assert!(public_web_seed_ip(v6(0, 0xffff_0808_0808)));
    assert!(check_web_seed_addresses(&vec![v4(8, 8, 8, 8)]).is_ok());
    assert!(check_web_seed_addresses(&Vec::new()).is_err());
}

fn response(status: u16, range: Option<&str>, length: Option<u64>) -> RangeResponse {
    RangeResponse {
        status,
        status_text: status.to_string(),
        content_encoding: None,
        content_range: range.map(str::to_owned),
        content_length: length,
    }
}

#[test]
fn only_the_range_that_was_asked_for_is_taken() {
    let request = RangeRequest::new(1, 4, 8).unwrap();
    assert_eq!(request.header(), "bytes=1-4");
    assert!(request.check_response(&response(206, Some("bytes 1-4/8"), Some(4))).is_ok());
    assert!(request.check_response(&response(206, Some("bytes 1-4/8"), None)).is_ok());
    assert!(request.check_response(&response(200, None, Some(4))).is_err());
    assert!(request.check_response(&response(206, Some("bytes 0-3/8"), Some(4))).is_err());
    assert!(request.check_response(&response(206, Some("bytes 1-4/8"), Some(5))).is_err());
    assert!(request.check_response(&response(206, None, Some(4))).is_err());
    assert!(request.check_response(&response(302, None, Some(0))).is_err());
    let encoded = RangeResponse {
        content_encoding: Some(b"gzip".to_vec()),
        ..response(206, Some("bytes 1-4/8"), Some(4))
    };
    assert!(request.check_response(&encoded).is_err());
    let plain = RangeResponse {
        content_encoding: Some(b"identity".to_vec()),
        ..response(206, Some("bytes 1-4/8"), Some(4))
    };
    assert!(request.check_response(&plain).is_ok());
    let whole = RangeRequest::new(0, 8, 8).unwrap();
    assert!(whole.check_response(&response(200, None, None)).is_ok());
    assert!(RangeRequest::new(u64::MAX, 2, 8).is_err());
}

#[test]
fn a_body_has_exactly_the_length_of_the_range() {
    let request = RangeRequest::new(1, 4, 8).unwrap();
    let mut body = Vec::new();
    request.receive(&mut body, b"da").unwrap();
    assert!(request.finish(&body).is_err());
    request.receive(&mut body, b"ta").unwrap();
    assert!(request.finish(&body).is_ok());
    assert_eq!(body, b"data");
    assert!(request.receive(&mut body, b"!").is_err());
}

fn single_file() -> Metainfo {
    Metainfo::parse(
        b"d4:infod6:lengthi4e4:name4:test12:piece lengthi4e6:pieces20:aaaaaaaaaaaaaaaaaaaaee",
        BencodeLimits::default(),
    )
    .unwrap()
}

fn two_files() -> Metainfo {
    Metainfo::parse(
        b"d4:infod5:filesld6:lengthi1e4:pathl1:aeed6:lengthi1e4:pathl3:b ceee4:name4:root12:piece lengthi4e6:pieces20:aaaaaaaaaaaaaaaaaaaaee",
        BencodeLimits::default(),
    )
    .unwrap()
}

#[test]
fn files_lie_below_their_seed() {
    let seeds = usable_web_seeds(&vec![
        "http://host/dir/".to_owned(),
        "ftp://host/".to_owned(),
        "http://host/exact.bin".to_owned(),
    ])
    .unwrap();
    assert_eq!(seeds.len(), 2);
    let single = single_file();
    assert_eq!(
        web_seed_file_url(&seeds[0], &single, &single.files[0]).unwrap(),
        "http://host/dir/test"
    );
    assert_eq!(
        web_seed_file_url(&seeds[1], &single, &single.files[0]).unwrap(),
        "http://host/exact.bin"
    );
    let multi = two_files();
    assert_eq!(
        web_seed_file_url(&seeds[0], &multi, &multi.files[1]).unwrap(),
        "http://host/dir/root/b%20c"
    );
    assert_eq!(web_seed_endpoint(&seeds[0]).unwrap(), ("host".to_owned(), 80));
    assert!(usable_web_seeds(&vec!["ftp://host/".to_owned()]).is_err());
}

#[test]
fn a_piece_is_put_together_from_its_files() {
    let multi = two_files();
    let segments = file_segments(&multi.files, 0, 2).unwrap();
    let parts = vec![Some(b"x".to_vec()), Some(b"y".to_vec())];
    assert_eq!(assemble_web_seed_piece(&segments, &parts, 2).unwrap(), b"xy");
    assert!(assemble_web_seed_piece(&segments, &parts, 3).is_err());
}

#[test]
fn a_seed_that_lies_is_not_asked_again() {
    let seeds = usable_web_seeds(&vec!["http://a/".to_owned(), "http://b/".to_owned()]).unwrap();
    let mut search = WebSeedSearch::new(seeds);
    assert_eq!(search.current().unwrap().text, "http://a/");
    search.reject_data();
    assert_eq!(search.current().unwrap().text, "http://b/");
    search.pass_over(ActorError::WebSeed("timed out".to_owned()));
    assert!(search.current().is_none());
    assert_eq!(search.give_up().message(), "web seed failed: web seed failed: timed out");
    search.next_piece();
    assert_eq!(
        search.current().unwrap().text,
        "http://b/",
        "a seed that failed is asked for the next piece"
    );
}
