//! Finding peers: which trackers to ask and when, and what their answers come to.

use crate::address::{PeerId, SocketAddress};
use crate::error::{ActorError, Fault};
use crate::hash::Sha1Hash;
use crate::location::{parse_url, url_of, UrlModel, UrlParts};
use crate::num::{clamp_of, max_of, min_of};
use crate::path::texts;
use crate::metainfo::{tiers_view, Metainfo};
use vstd::prelude::*;
use vstd::string::{StrSliceExecFns, StringExecFns};

verus! {

pub const PEER_LIMIT_PER_ANNOUNCE: u16 = 200;

pub const TRACKER_INTERVAL_MIN_NANOS: u64 = 60_000_000_000;

pub const TRACKER_INTERVAL_MAX_NANOS: u64 = 14_400_000_000_000;

pub const PEER_REANNOUNCE_NANOS: u64 = 60_000_000_000;

pub const DHT_ANNOUNCE_NANOS: u64 = 900_000_000_000;

/// Whether trackers of a scheme can be asked.
pub open spec fn is_tracker_scheme(scheme: Seq<char>) -> bool {
    scheme == "http"@ || scheme == "https"@ || scheme == "udp"@
}

/// The tracker behind a text, if it is one that can be asked.
pub open spec fn tracker_of(text: Seq<char>) -> Option<UrlModel> {
    match url_of(text) {
        Ok(url) => if is_tracker_scheme(url.scheme) {
            Some(url)
        } else {
            None
        },
        Err(_) => None,
    }
}

pub open spec fn lists_url(urls: Seq<UrlModel>, text: Seq<char>) -> bool {
    exists|i: int| 0 <= i < urls.len() && (#[trigger] urls[i]).text == text
}

/// The trackers of one tier behind those that are listed already, each once.
pub open spec fn tier_urls(listed: Seq<UrlModel>, tier: Seq<Seq<char>>) -> Seq<UrlModel>
    decreases tier.len(),
{
    if tier.len() == 0 {
        listed
    } else {
        let before = tier_urls(listed, tier.drop_last());
        match tracker_of(tier.last()) {
            Some(url) => if lists_url(before, url.text) {
                before
            } else {
                before.push(url)
            },
            None => before,
        }
    }
}

/// The trackers of all tiers in order, each once.
pub open spec fn tracker_urls_of(tiers: Seq<Seq<Seq<char>>>) -> Seq<UrlModel>
    decreases tiers.len(),
{
    if tiers.len() == 0 {
        Seq::empty()
    } else {
        tier_urls(tracker_urls_of(tiers.drop_last()), tiers.last())
    }
}

pub open spec fn urls_view(urls: Seq<UrlParts>) -> Seq<UrlModel> {
    Seq::new(urls.len(), |i: int| urls[i]@)
}

fn is_text(text: &String, literal: &str) -> (result: bool)
    ensures
        result == (text@ == literal@),
{
    *text == String::from_str(literal)
}

fn is_listed(urls: &Vec<UrlParts>, text: &String) -> (result: bool)
    ensures
        result == lists_url(urls_view(urls@), text@),
{
    let ghost models = urls_view(urls@);
    let mut i: usize = 0;
    while i < urls.len()
        invariant
            models == urls_view(urls@),
            i <= urls@.len(),
            forall|k: int| 0 <= k < i ==> (#[trigger] models[k]).text != text@,
        decreases urls@.len() - i,
    {
        assert(models[i as int].text == urls@[i as int].text@);
        if urls[i].text == *text {
            return true;
        }
        i += 1;
    }
    false
}

/// Whether a tracker speaks HTTP, or else UDP, or neither.
#[derive(Clone, Copy, Debug, Eq, PartialEq, Structural)]
pub enum TrackerKind {
    Http,
    Udp,
}

/// How a tracker is asked.
pub open spec fn kind_of(scheme: Seq<char>) -> Option<TrackerKind> {
    if scheme == "http"@ || scheme == "https"@ {
        Some(TrackerKind::Http)
    } else if scheme == "udp"@ {
        Some(TrackerKind::Udp)
    } else {
        None
    }
}

pub fn tracker_kind(scheme: &String) -> (kind: Option<TrackerKind>)
    ensures
        kind == kind_of(scheme@),
{
    if is_text(scheme, "http") || is_text(scheme, "https") {
        Some(TrackerKind::Http)
    } else if is_text(scheme, "udp") {
        Some(TrackerKind::Udp)
    } else {
        None
    }
}

fn add_tier(urls: &mut Vec<UrlParts>, tier: &Vec<String>)
    ensures
        urls_view(final(urls)@) == tier_urls(urls_view(old(urls)@), texts(tier@)),
{
    let ghost names = texts(tier@);
    let ghost before = urls_view(urls@);
    let mut i: usize = 0;
    assert(names.take(0) =~= Seq::empty());
    while i < tier.len()
        invariant
            names == texts(tier@),
            i <= tier@.len(),
            urls_view(urls@) == tier_urls(before, names.take(i as int)),
        decreases tier@.len() - i,
    {
        proof {
            assert(names.take(i + 1).drop_last() =~= names.take(i as int));
            assert(names.take(i + 1).last() == tier@[i as int]@);
        }
        if let Ok(url) = parse_url(tier[i].as_str()) {
            if tracker_kind(&url.scheme).is_some() && !is_listed(urls, &url.text) {
                let ghost listed = urls_view(urls@);
                urls.push(url);
                assert(urls_view(urls@) =~= listed.push(url@));
            }
        }
        i += 1;
    }
    assert(names.take(names.len() as int) =~= names);
}

/// The trackers that can be asked, in order, each once.
pub fn tracker_urls(trackers: &Vec<Vec<String>>) -> (urls: Vec<UrlParts>)
    ensures
        urls_view(urls@) == tracker_urls_of(tiers_view(trackers@)),
{
    let ghost tiers = tiers_view(trackers@);
    let mut urls: Vec<UrlParts> = Vec::new();
    let mut i: usize = 0;
    proof {
        assert(tiers.take(0) =~= Seq::empty());
        assert(urls_view(urls@) =~= Seq::empty());
    }
    while i < trackers.len()
        invariant
            tiers == tiers_view(trackers@),
            i <= trackers@.len(),
            urls_view(urls@) == tracker_urls_of(tiers.take(i as int)),
        decreases trackers@.len() - i,
    {
        proof {
            assert(tiers.take(i + 1).drop_last() =~= tiers.take(i as int));
            assert(tiers.take(i + 1).last() == texts(trackers@[i as int]@));
        }
        add_tier(&mut urls, &trackers[i]);
        i += 1;
    }
    assert(tiers.take(tiers.len() as int) =~= tiers);
    urls
}

/// No tracker is asked twice, and every one of them can be asked.
pub proof fn law_trackers_are_asked_once(tiers: Seq<Seq<Seq<char>>>)
    ensures
        ({
            let urls = tracker_urls_of(tiers);
            &&& forall|i: int, j: int|
                0 <= i < j < urls.len() ==> (#[trigger] urls[i]).text != (#[trigger] urls[j]).text
            &&& forall|i: int|
                0 <= i < urls.len() ==> is_tracker_scheme((#[trigger] urls[i]).scheme)
        }),
    decreases tiers.len(),
{
    if tiers.len() > 0 {
        law_trackers_are_asked_once(tiers.drop_last());
        lemma_tier_once(tracker_urls_of(tiers.drop_last()), tiers.last());
    }
}

proof fn lemma_tier_once(listed: Seq<UrlModel>, tier: Seq<Seq<char>>)
    requires
        forall|i: int, j: int|
            0 <= i < j < listed.len() ==> (#[trigger] listed[i]).text != (
            #[trigger] listed[j]).text,
        forall|i: int|
            0 <= i < listed.len() ==> is_tracker_scheme((#[trigger] listed[i]).scheme),
    ensures
        ({
            let urls = tier_urls(listed, tier);
            &&& forall|i: int, j: int|
                0 <= i < j < urls.len() ==> (#[trigger] urls[i]).text != (#[trigger] urls[j]).text
            &&& forall|i: int|
                0 <= i < urls.len() ==> is_tracker_scheme((#[trigger] urls[i]).scheme)
        }),
    decreases tier.len(),
{
    if tier.len() > 0 {
        lemma_tier_once(listed, tier.drop_last());
        let before = tier_urls(listed, tier.drop_last());
        let after = tier_urls(listed, tier);
        assert forall|i: int, j: int| 0 <= i < j < after.len() implies (
        #[trigger] after[i]).text != (#[trigger] after[j]).text by {
            assert(after[i] == before[i]);
            if j < before.len() {
                assert(after[j] == before[j]);
            }
        }
    }
}

/// When a tracker may be asked again.
#[derive(Debug)]
pub struct TrackerDue {
    pub url: String,
    pub due: u64,
}

/// The position of a tracker at or after `from`, or the length.
pub open spec fn due_at(entries: Seq<TrackerDue>, url: Seq<char>, from: int) -> int
    decreases entries.len() - from,
{
    if from < 0 || from >= entries.len() || entries[from].url@ == url {
        from
    } else {
        due_at(entries, url, from + 1)
    }
}

/// Whether a tracker may be asked: one that is no URL, or that never said
/// when, or whose time has come.
pub open spec fn is_due(entries: Seq<TrackerDue>, tracker: Seq<char>, now: int) -> bool {
    match url_of(tracker) {
        Err(_) => true,
        Ok(url) => {
            let at = due_at(entries, url.text, 0);
            at >= entries.len() || entries[at].due <= now
        },
    }
}

/// The trackers of a tier that may be asked.
pub open spec fn due_tier(
    entries: Seq<TrackerDue>,
    tier: Seq<Seq<char>>,
    now: int,
) -> Seq<Seq<char>>
    decreases tier.len(),
{
    if tier.len() == 0 {
        Seq::empty()
    } else {
        let before = due_tier(entries, tier.drop_last(), now);
        if is_due(entries, tier.last(), now) {
            before.push(tier.last())
        } else {
            before
        }
    }
}

/// The tiers with a tracker that may be asked, reduced to such trackers.
pub open spec fn due_tiers(
    entries: Seq<TrackerDue>,
    tiers: Seq<Seq<Seq<char>>>,
    now: int,
) -> Seq<Seq<Seq<char>>>
    decreases tiers.len(),
{
    if tiers.len() == 0 {
        Seq::empty()
    } else {
        let before = due_tiers(entries, tiers.drop_last(), now);
        let tier = due_tier(entries, tiers.last(), now);
        if tier.len() > 0 {
            before.push(tier)
        } else {
            before
        }
    }
}

/// Whether no tracker stands twice.
pub open spec fn unique_trackers(entries: Seq<TrackerDue>) -> bool {
    forall|i: int, j: int|
        0 <= i < j < entries.len() ==> (#[trigger] entries[i]).url@ != (
        #[trigger] entries[j]).url@
}

pub proof fn lemma_due_at(entries: Seq<TrackerDue>, url: Seq<char>, from: int)
    requires
        0 <= from <= entries.len(),
    ensures
        from <= due_at(entries, url, from) <= entries.len(),
        due_at(entries, url, from) < entries.len() ==> entries[due_at(entries, url, from)].url@
            == url,
        forall|k: int|
            from <= k < due_at(entries, url, from) ==> (#[trigger] entries[k]).url@ != url,
    decreases entries.len() - from,
{
    if from < entries.len() && entries[from].url@ != url {
        lemma_due_at(entries, url, from + 1);
    }
}

/// When the trackers may be asked again.
#[derive(Debug)]
pub struct TrackerSchedule {
    pub entries: Vec<TrackerDue>,
}

impl TrackerSchedule {
    /// Whether no tracker stands twice.
    pub open spec fn wf(&self) -> bool {
        unique_trackers(self.entries@)
    }

    pub fn new() -> (schedule: Self)
        ensures
            schedule.wf(),
            schedule.entries@.len() == 0,
    {
        Self { entries: Vec::new() }
    }

    fn find(&self, url: &String) -> (result: Option<usize>)
        ensures
            match result {
                Some(at) => at < self.entries@.len() && at == due_at(self.entries@, url@, 0),
                None => due_at(self.entries@, url@, 0) == self.entries@.len(),
            },
    {
        let mut i: usize = 0;
        while i < self.entries.len()
            invariant
                i <= self.entries@.len(),
                due_at(self.entries@, url@, 0) == due_at(self.entries@, url@, i as int),
            decreases self.entries@.len() - i,
        {
            if self.entries[i].url == *url {
                return Some(i);
            }
            i += 1;
        }
        None
    }

    /// A tracker asked to be left alone for a while: for at least a minute and
    /// at most four hours.
    pub fn postpone(&mut self, url: String, interval: u64, now: u64)
        requires
            old(self).wf(),
        ensures
            final(self).wf(),
            ({
                let due = min_of(
                    now + clamp_of(
                        interval as int,
                        TRACKER_INTERVAL_MIN_NANOS as int,
                        TRACKER_INTERVAL_MAX_NANOS as int,
                    ),
                    u64::MAX as int,
                ) as u64;
                let at = due_at(old(self).entries@, url@, 0);
                final(self).entries@ == if at < old(self).entries@.len() {
                    old(self).entries@.update(at, TrackerDue { url, due })
                } else {
                    old(self).entries@.push(TrackerDue { url, due })
                }
            }),
    {
        let pause: u64 = if interval < TRACKER_INTERVAL_MIN_NANOS {
            TRACKER_INTERVAL_MIN_NANOS
        } else if interval > TRACKER_INTERVAL_MAX_NANOS {
            TRACKER_INTERVAL_MAX_NANOS
        } else {
            interval
        };
        let due: u64 = now.saturating_add(pause);
        proof {
            lemma_due_at(self.entries@, url@, 0);
        }
        match self.find(&url) {
            Some(at) => {
                self.entries[at] = TrackerDue { url, due };
            },
            None => {
                self.entries.push(TrackerDue { url, due });
            },
        }
    }

    fn may_ask(&self, tracker: &String, now: u64) -> (result: bool)
        ensures
            result == is_due(self.entries@, tracker@, now as int),
    {
        match parse_url(tracker.as_str()) {
            Err(_) => true,
            Ok(url) => match self.find(&url.text) {
                Some(at) => self.entries[at].due <= now,
                None => true,
            },
        }
    }

    fn tier_due(&self, tier: &Vec<String>, now: u64) -> (due: Vec<String>)
        ensures
            texts(due@) == due_tier(self.entries@, texts(tier@), now as int),
    {
        let ghost names = texts(tier@);
        let mut due: Vec<String> = Vec::new();
        let mut i: usize = 0;
        proof {
            assert(names.take(0) =~= Seq::empty());
            assert(texts(due@) =~= Seq::empty());
        }
        while i < tier.len()
            invariant
                names == texts(tier@),
                i <= tier@.len(),
                texts(due@) == due_tier(self.entries@, names.take(i as int), now as int),
            decreases tier@.len() - i,
        {
            proof {
                assert(names.take(i + 1).drop_last() =~= names.take(i as int));
                assert(names.take(i + 1).last() == tier@[i as int]@);
            }
            if self.may_ask(&tier[i], now) {
                let ghost before = due@;
                due.push(tier[i].clone());
                assert(texts(due@) =~= texts(before).push(tier@[i as int]@));
            }
            i += 1;
        }
        assert(names.take(names.len() as int) =~= names);
        due
    }

    /// Tracker tiers reduced to the trackers whose requested interval has
    /// elapsed, so that asking again every minute re-uses other sources
    /// without hammering trackers that asked for a longer interval.
    pub fn due_tracker_tiers(&self, tiers: &Vec<Vec<String>>, now: u64) -> (due: Vec<Vec<String>>)
        ensures
            tiers_view(due@) == due_tiers(self.entries@, tiers_view(tiers@), now as int),
    {
        let ghost models = tiers_view(tiers@);
        let mut due: Vec<Vec<String>> = Vec::new();
        let mut i: usize = 0;
        proof {
            assert(models.take(0) =~= Seq::empty());
            assert(tiers_view(due@) =~= Seq::empty());
        }
        while i < tiers.len()
            invariant
                models == tiers_view(tiers@),
                i <= tiers@.len(),
                tiers_view(due@) == due_tiers(
                    self.entries@,
                    models.take(i as int),
                    now as int,
                ),
            decreases tiers@.len() - i,
        {
            proof {
                assert(models.take(i + 1).drop_last() =~= models.take(i as int));
                assert(models.take(i + 1).last() == texts(tiers@[i as int]@));
            }
            let tier = self.tier_due(&tiers[i], now);
            assert(texts(tier@).len() == tier@.len());
            if tier.len() > 0 {
                let ghost before = due@;
                due.push(tier);
                assert(tiers_view(due@) =~= tiers_view(before).push(texts(tier@)));
            }
            i += 1;
        }
        assert(models.take(models.len() as int) =~= models);
        due
    }
}

/// The interval that a tracker asked for: the larger of the two that it gave.
pub fn announce_interval(interval: u64, minimum: Option<u64>) -> (result: u64)
    ensures
        result == max_of(
            interval as int,
            match minimum {
                Some(minimum) => minimum as int,
                None => 0,
            },
        ),
{
    match minimum {
        Some(minimum) => if minimum > interval {
            minimum
        } else {
            interval
        },
        None => interval,
    }
}

/// What one source of peers came to.
#[derive(Debug)]
pub enum SourceResult {
    Tracker { url: String, result: Result<(Vec<SocketAddress>, u64), String> },
    Dht(Result<Vec<SocketAddress>, String>),
    Lsd(Vec<SocketAddress>),
    /// The source broke off.
    Lost(String),
}

/// What is passed on of one source of peers.
#[derive(Debug)]
pub struct SourceNews {
    /// A tracker asked to be asked again no sooner than this.
    pub interval: Option<(String, u64)>,
    pub peers: Vec<SocketAddress>,
}

/// The peers that a source found.
pub open spec fn peers_of(source: SourceResult) -> Seq<SocketAddress> {
    match source {
        SourceResult::Tracker { url, result } => match result {
            Ok((peers, _)) => peers@,
            Err(_) => Seq::empty(),
        },
        SourceResult::Dht(result) => match result {
            Ok(peers) => peers@,
            Err(_) => Seq::empty(),
        },
        SourceResult::Lsd(peers) => peers@,
        SourceResult::Lost(_) => Seq::empty(),
    }
}

/// What went wrong with a source.
pub open spec fn error_of(source: SourceResult) -> Option<Seq<char>> {
    match source {
        SourceResult::Tracker { url, result } => match result {
            Ok(_) => None,
            Err(error) => Some(error@),
        },
        SourceResult::Dht(result) => match result {
            Ok(_) => None,
            Err(error) => Some(error@),
        },
        SourceResult::Lsd(_) => None,
        SourceResult::Lost(error) => Some(error@),
    }
}

/// The interval that a source asked for.
pub open spec fn interval_of(source: SourceResult) -> Option<(Seq<char>, u64)> {
    match source {
        SourceResult::Tracker { url, result } => match result {
            Ok((_, interval)) => Some((url@, interval)),
            Err(_) => None,
        },
        _ => None,
    }
}

/// How far a search for peers has come.
#[derive(Debug)]
pub struct DiscoveryProgress {
    pub found: bool,
    pub last_error: Option<String>,
}

/// What a search came to: peers were found, or there was nobody to ask, or the
/// last thing that went wrong.
pub open spec fn search_result(
    found: bool,
    last_error: Option<Seq<char>>,
    tracker_attempted: bool,
    allow_dht: bool,
) -> Result<(), Fault> {
    if found {
        Ok(())
    } else if !tracker_attempted && !allow_dht {
        Err(Fault::NoTracker)
    } else {
        match last_error {
            Some(text) => Err(Fault::Peer(text)),
            None => Err(Fault::NoPeers),
        }
    }
}

pub open spec fn text_view(text: Option<String>) -> Option<Seq<char>> {
    match text {
        Some(text) => Some(text@),
        None => None,
    }
}

impl DiscoveryProgress {
    pub fn new() -> (progress: Self)
        ensures
            !progress.found,
            progress.last_error is None,
    {
        Self { found: false, last_error: None }
    }

    /// A source is done. Gives what is to be passed on of it.
    pub fn source_done(&mut self, source: SourceResult) -> (news: SourceNews)
        ensures
            news.peers@ == peers_of(source),
            match news.interval {
                Some((url, interval)) => interval_of(source) == Some((url@, interval)),
                None => interval_of(source) is None,
            },
            final(self).found == (old(self).found || peers_of(source).len() > 0),
            text_view(final(self).last_error) == (match error_of(source) {
                Some(error) => Some(error),
                None => text_view(old(self).last_error),
            }),
    {
        let mut interval: Option<(String, u64)> = None;
        let peers: Vec<SocketAddress> = match source {
            SourceResult::Tracker { url, result } => match result {
                Ok((peers, pause)) => {
                    interval = Some((url, pause));
                    peers
                },
                Err(error) => {
                    self.last_error = Some(error);
                    Vec::new()
                },
            },
            SourceResult::Dht(result) => match result {
                Ok(peers) => peers,
                Err(error) => {
                    self.last_error = Some(error);
                    Vec::new()
                },
            },
            SourceResult::Lsd(peers) => peers,
            SourceResult::Lost(error) => {
                self.last_error = Some(error);
                Vec::new()
            },
        };
        assert(peers@ =~= peers_of(source));
        if peers.len() > 0 {
            self.found = true;
        }
        SourceNews { interval, peers }
    }

    /// What the search came to once every source is done.
    pub fn finish(self, tracker_attempted: bool, allow_dht: bool) -> (result: Result<
        (),
        ActorError,
    >)
        ensures
            ({
                let wanted = search_result(
                    self.found,
                    text_view(self.last_error),
                    tracker_attempted,
                    allow_dht,
                );
                match result {
                    Ok(()) => wanted == Ok::<(), Fault>(()),
                    Err(error) => wanted == Err::<(), Fault>(error@),
                }
            }),
    {
        if self.found {
            Ok(())
        } else if !tracker_attempted && !allow_dht {
            Err(ActorError::NoTracker)
        } else {
            match self.last_error {
                Some(text) => Err(ActorError::Peer(text)),
                None => Err(ActorError::NoPeers),
            }
        }
    }
}

/// What a tracker is told of how the download stands.
#[derive(Clone, Copy, Debug, Eq, PartialEq, Structural)]
pub enum AnnounceEvent {
    /// An announcement in between.
    Regular,
    Started,
    Stopped,
    Completed,
}

/// What a tracker is asked.
#[derive(Clone, Copy, Debug)]
pub struct TrackerRequest {
    pub info_hash: Sha1Hash,
    pub peer_id: PeerId,
    pub port: u16,
    pub uploaded: u64,
    pub downloaded: u64,
    pub left: u64,
    pub event: AnnounceEvent,
    pub numwant: u16,
    /// What the daemon is known by when its address changes.
    pub key: u32,
    pub support_crypto: bool,
}

/// The number that four bytes write, the first the most significant.
pub open spec fn number_of(bytes: Seq<u8>) -> int {
    bytes[0] * 0x100_0000 + bytes[1] * 0x1_0000 + bytes[2] * 0x100 + bytes[3]
}

/// What a tracker is asked for a torrent. The key is made of the last four
/// bytes of the peer id.
pub fn tracker_request(
    info_hash: Sha1Hash,
    peer_id: PeerId,
    port: u16,
    uploaded: u64,
    downloaded: u64,
    left: u64,
    event: AnnounceEvent,
    support_crypto: bool,
) -> (request: TrackerRequest)
    ensures
        request == (TrackerRequest {
            info_hash,
            peer_id,
            port,
            uploaded,
            downloaded,
            left,
            event,
            numwant: PEER_LIMIT_PER_ANNOUNCE,
            key: number_of(peer_id.bytes@.skip(16)) as u32,
            support_crypto,
        }),
{
    let b = peer_id.bytes;
    let key: u32 = b[16] as u32 * 0x100_0000 + b[17] as u32 * 0x1_0000 + b[18] as u32 * 0x100
        + b[19] as u32;
    proof {
        let tail = peer_id.bytes@.skip(16);
        assert(tail[0] == b@[16] && tail[1] == b@[17] && tail[2] == b@[18] && tail[3] == b@[19]);
    }
    TrackerRequest {
        info_hash,
        peer_id,
        port,
        uploaded,
        downloaded,
        left,
        event,
        numwant: PEER_LIMIT_PER_ANNOUNCE,
        key,
        support_crypto,
    }
}

/// How much of a torrent is still to be downloaded, as a tracker is told.
pub fn bytes_left(metainfo: &Metainfo, downloaded: u64) -> (left: u64)
    ensures
        left == max_of(metainfo@.total_length - downloaded, 0),
{
    metainfo.total_length.saturating_sub(downloaded)
}

/// Which sources a search asks.
#[derive(Debug)]
pub struct DiscoveryPlan {
    pub trackers: Vec<UrlParts>,
    pub dht: bool,
    /// The port to announce in the DHT after the lookup.
    pub announce_port: Option<u16>,
    pub lsd: bool,
}

/// Trackers are always asked. The DHT and the local network are asked for
/// torrents that are not private, the DHT only where a node of it is known.
pub fn plan_discovery(
    trackers: &Vec<Vec<String>>,
    allow_dht: bool,
    dht_known: bool,
    dht_announce: bool,
    advertised_port: u16,
) -> (plan: DiscoveryPlan)
    ensures
        urls_view(plan.trackers@) == tracker_urls_of(tiers_view(trackers@)),
        plan.dht == (allow_dht && dht_known),
        plan.announce_port == (if dht_announce {
            Some(advertised_port)
        } else {
            None
        }),
        plan.lsd == allow_dht,
{
    DiscoveryPlan {
        trackers: tracker_urls(trackers),
        dht: allow_dht && dht_known,
        announce_port: if dht_announce {
            Some(advertised_port)
        } else {
            None
        },
        lsd: allow_dht,
    }
}

/// When a swarm last searched for peers.
#[derive(Clone, Copy, Debug, Eq, PartialEq, Structural)]
pub struct SearchClock {
    pub last_discovery: u64,
    pub last_dht_announce: u64,
}

impl SearchClock {
    /// Whether it is time to search again, and if so whether to announce in
    /// the DHT: a search a minute, an announcement a quarter of an hour.
    pub fn search_again(&mut self, searching: bool, now: u64) -> (result: Option<bool>)
        ensures
            ({
                let due = !searching && max_of(now - old(self).last_discovery, 0)
                    >= PEER_REANNOUNCE_NANOS;
                let announce = max_of(now - old(self).last_dht_announce, 0)
                    >= DHT_ANNOUNCE_NANOS;
                if due {
                    &&& result == Some(announce)
                    &&& final(self).last_discovery == now
                    &&& final(self).last_dht_announce == (if announce {
                        now
                    } else {
                        old(self).last_dht_announce
                    })
                } else {
                    result is None && *final(self) == *old(self)
                }
            }),
    {
        if searching || now.saturating_sub(self.last_discovery) < PEER_REANNOUNCE_NANOS {
            return None;
        }
        let announce: bool = now.saturating_sub(self.last_dht_announce) >= DHT_ANNOUNCE_NANOS;
        if announce {
            self.last_dht_announce = now;
        }
        self.last_discovery = now;
        Some(announce)
    }
}

} // verus!
