//! Finding peers.

use dendrite::address::{IpAddress, PeerId, SocketAddress};
use dendrite::discovery::{
    announce_interval, plan_discovery, tracker_kind, tracker_request, tracker_urls, AnnounceEvent,
    DiscoveryProgress, SearchClock, SourceResult, TrackerKind, TrackerSchedule,
};
use dendrite::hash::Sha1Hash;
use dendrite::lsd::{announcements, LocalSearch, LsdAnnouncer};

fn tiers(tiers: &[&[&str]]) -> Vec<Vec<String>> {
    tiers
        .iter()
        .map(|tier| tier.iter().map(|url| (*url).to_owned()).collect())
        .collect()
}

fn peer(last: u32) -> SocketAddress {
    SocketAddress { ip: IpAddress::V4(last), port: 6881 }
}

fn hash(byte: u8) -> Sha1Hash {
    Sha1Hash::from_bytes([byte; 20])
}

#[test]
fn trackers_are_asked_once_and_only_where_they_can_be() {
    let urls = tracker_urls(&tiers(&[
        &["http://a/announce", "wss://b/announce"],
        &["HTTP://A/announce", "not a url", "udp://c:80"],
    ]));
    let texts: Vec<&str> = urls.iter().map(|url| url.text.as_str()).collect();
    assert_eq!(texts, ["http://a/announce", "udp://c:80"]);
    assert_eq!(tracker_kind(&"https".to_owned()), Some(TrackerKind::Http));
    assert_eq!(tracker_kind(&"udp".to_owned()), Some(TrackerKind::Udp));
    assert_eq!(tracker_kind(&"wss".to_owned()), None);
}

#[test]
fn trackers_are_left_alone_as_long_as_they_ask() {
    let second = 1_000_000_000;
    let all = tiers(&[&["http://a/announce"], &["http://b/announce", "odd"]]);
    let mut schedule = TrackerSchedule::new();
    schedule.postpone("http://a/announce".to_owned(), 5 * second, 0);
    schedule.postpone("http://b/announce".to_owned(), 100_000 * second, 0);
    assert_eq!(schedule.due_tracker_tiers(&all, 59 * second), tiers(&[&["odd"]]));
    assert_eq!(
        schedule.due_tracker_tiers(&all, 60 * second),
        tiers(&[&["http://a/announce"], &["odd"]]),
        "never for less than a minute"
    );
    assert_eq!(
        schedule.due_tracker_tiers(&all, 4 * 3600 * second),
        all,
        "never for more than four hours"
    );
}

#[test]
fn the_larger_interval_counts() {
    assert_eq!(announce_interval(30, None), 30);
    assert_eq!(announce_interval(30, Some(20)), 30);
    assert_eq!(announce_interval(30, Some(40)), 40);
}

#[test]
fn a_search_succeeds_if_anybody_was_found() {
    let mut progress = DiscoveryProgress::new();
    let news = progress.source_done(SourceResult::Tracker {
        url: "http://a".to_owned(),
        result: Ok((vec![peer(1)], 7)),
    });
    assert_eq!(news.interval, Some(("http://a".to_owned(), 7)));
    assert_eq!(news.peers, [peer(1)]);
    progress.source_done(SourceResult::Dht(Err("timed out".to_owned())));
    assert!(progress.finish(true, true).is_ok());
}

#[test]
fn a_fruitless_search_says_why() {
    assert_eq!(
        DiscoveryProgress::new().finish(false, false).unwrap_err().message(),
        "torrent has no usable HTTP(S) or UDP tracker"
    );
    assert_eq!(
        DiscoveryProgress::new().finish(true, false).unwrap_err().message(),
        "trackers returned no connectable peers"
    );
    let mut progress = DiscoveryProgress::new();
    progress.source_done(SourceResult::Lost("task failed".to_owned()));
    progress.source_done(SourceResult::Lsd(Vec::new()));
    assert_eq!(
        progress.finish(true, false).unwrap_err().message(),
        "peer session failed: task failed"
    );
}

#[test]
fn trackers_are_told_how_the_download_stands() {
    let mut id = [0_u8; 20];
    id[16..].copy_from_slice(&[1, 2, 3, 4]);
    let request = tracker_request(
        hash(5),
        PeerId::from_bytes(id),
        6881,
        10,
        20,
        30,
        AnnounceEvent::Started,
        true,
    );
    assert_eq!(request.key, 0x0102_0304);
    assert_eq!(request.numwant, 200);
    assert_eq!((request.uploaded, request.downloaded, request.left), (10, 20, 30));
}

#[test]
fn private_torrents_are_only_looked_for_at_trackers() {
    let plan = plan_discovery(&tiers(&[&["udp://c:80"]]), false, true, true, 99);
    assert_eq!(plan.trackers.len(), 1);
    assert!(!plan.dht);
    assert!(!plan.lsd);
    assert_eq!(plan.announce_port, Some(99));
    let plan = plan_discovery(&Vec::new(), true, false, false, 99);
    assert!(!plan.dht, "no node of the DHT is known");
    assert!(plan.lsd);
}

#[test]
fn a_search_is_repeated_only_when_none_is_going_on() {
    let minute = 60_000_000_000;
    let mut clock = SearchClock { last_discovery: 0, last_dht_announce: 0 };
    assert_eq!(clock.search_again(true, 5 * minute), None);
    assert_eq!(clock.search_again(false, minute), Some(false));
    assert_eq!(clock.search_again(false, minute + 1), None);
    assert_eq!(clock.search_again(false, 15 * minute), Some(true));
    assert_eq!(clock.last_dht_announce, 15 * minute);
}

#[test]
fn local_announcements_come_in_batches() {
    let hashes: Vec<Sha1Hash> = (0..45).map(hash).collect();
    let batches = announcements(&hashes);
    let lengths: Vec<usize> = batches.iter().map(Vec::len).collect();
    assert_eq!(lengths, [20, 20, 5]);
    assert_eq!(batches[2][4].as_bytes(), &[44; 20]);
    assert!(announcements(&Vec::new()).is_empty());
}

#[test]
fn local_searchers_are_answered_once_a_minute() {
    let minute = 60_000_000_000;
    let mut announcer = LsdAnnouncer::new();
    let active = vec![hash(1), hash(2)];
    let asked = vec![hash(2), hash(3)];
    let matching = announcer.answer(&active, &asked, 5);
    assert_eq!(matching.len(), 1);
    assert_eq!(matching[0].as_bytes(), &[2; 20]);
    announcer.announced(&Vec::new(), 5);
    assert_eq!(announcer.last_announce, None);
    announcer.announced(&matching, 5);
    assert!(announcer.stays_quiet(minute));
    assert!(!announcer.stays_quiet(minute + 5));
    assert!(announcer.answer(&active, &asked, minute).is_empty());
    assert_eq!(announcer.answer(&active, &asked, minute + 5).len(), 1);
}

#[test]
fn local_peers_are_found_by_their_source() {
    let mut search = LocalSearch::new(hash(1));
    search.heard(&vec![hash(2)], IpAddress::V4(1), 10);
    search.heard(&vec![hash(2), hash(1)], IpAddress::V4(2), 20);
    search.heard(&vec![hash(1)], IpAddress::V4(2), 20);
    assert_eq!(search.peers, [SocketAddress { ip: IpAddress::V4(2), port: 20 }]);
}
