//! Whom a search for peers asks, and when.

use crate::discovery::{
    due_at, due_tier, due_tiers, is_due, lemma_due_at, lists_url,
    tier_urls, tracker_of, tracker_urls_of, unique_trackers, TrackerDue,
};
use crate::location::{url_of, UrlModel};
use crate::lsd::shared_hashes;
use vstd::prelude::*;

verus! {

/// A text is a tracker that can be asked, with this URL.
pub open spec fn is_tracker(text: Seq<char>, url: UrlModel) -> bool {
    url_of(text) == Ok::<UrlModel, Seq<char>>(url) && (url.scheme == "http"@ || url.scheme
        == "https"@ || url.scheme == "udp"@)
}

/// The trackers of a list of texts: each that can be asked once, where it stands
/// first, in order.
pub open spec fn are_trackers(urls: Seq<UrlModel>, texts: Seq<Seq<char>>, kept: Seq<int>) -> bool {
    &&& urls.len() == kept.len()
    &&& forall|i: int|
        0 <= i < kept.len() ==> 0 <= #[trigger] kept[i] < texts.len() && is_tracker(
            texts[kept[i]],
            urls[i],
        )
    &&& forall|i: int, j: int| 0 <= i < j < kept.len() ==> #[trigger] kept[i] < #[trigger] kept[j]
    &&& forall|i: int, k: int, url: UrlModel|
        0 <= i < kept.len() && 0 <= k < kept[i] && #[trigger] is_tracker(texts[k], url)
            ==> url.text != (#[trigger] urls[i]).text
    &&& forall|k: int, url: UrlModel|
        0 <= k < texts.len() && #[trigger] is_tracker(texts[k], url) ==> exists|i: int|
            0 <= i < urls.len() && (#[trigger] urls[i]).text == url.text
}

proof fn lemma_trackers(texts: Seq<Seq<char>>) -> (kept: Seq<int>)
    ensures
        are_trackers(tier_urls(Seq::empty(), texts), texts, kept),
    decreases texts.len(),
{
    if texts.len() == 0 {
        Seq::empty()
    } else {
        let front = texts.drop_last();
        let before = lemma_trackers(front);
        let listed = tier_urls(Seq::empty(), front);
        let urls = tier_urls(Seq::empty(), texts);
        let last = texts.len() - 1;
        let found = tracker_of(texts[last]);
        let is_new = found is Some && !lists_url(listed, found->0.text);
        let kept = if is_new {
            before.push(last)
        } else {
            before
        };
        assert forall|i: int| 0 <= i < kept.len() implies 0 <= #[trigger] kept[i] < texts.len()
            && is_tracker(texts[kept[i]], urls[i]) by {
            if i < before.len() {
                assert(kept[i] == before[i]);
                assert(front[before[i]] == texts[kept[i]]);
            }
        }
        assert forall|i: int, k: int, url: UrlModel|
            0 <= i < kept.len() && 0 <= k < kept[i] && #[trigger] is_tracker(texts[k], url) implies
            url.text != (#[trigger] urls[i]).text by {
            assert(is_tracker(front[k], url));
            if i < before.len() {
                assert(kept[i] == before[i]);
                assert(urls[i] == listed[i]);
            } else {
                let j = choose|j: int|
                    0 <= j < listed.len() && (#[trigger] listed[j]).text == url.text;
                assert(lists_url(listed, url.text));
            }
        }
        assert forall|k: int, url: UrlModel|
            0 <= k < texts.len() && #[trigger] is_tracker(texts[k], url) implies exists|i: int|
            0 <= i < urls.len() && (#[trigger] urls[i]).text == url.text by {
            if k < last {
                assert(is_tracker(front[k], url));
                let i = choose|i: int|
                    0 <= i < listed.len() && (#[trigger] listed[i]).text == url.text;
                assert(urls[i].text == url.text);
            } else if is_new {
                assert(urls[listed.len() as int].text == url.text);
            } else {
                let i = choose|i: int|
                    0 <= i < listed.len() && (#[trigger] listed[i]).text == url.text;
                assert(urls[i].text == url.text);
            }
        }
        kept
    }
}

proof fn lemma_tier_after_tier(listed: Seq<UrlModel>, a: Seq<Seq<char>>, b: Seq<Seq<char>>)
    ensures
        tier_urls(tier_urls(listed, a), b) == tier_urls(listed, a + b),
    decreases b.len(),
{
    if b.len() == 0 {
        assert(a + b =~= a);
    } else {
        lemma_tier_after_tier(listed, a, b.drop_last());
        assert((a + b).drop_last() =~= a + b.drop_last());
        assert((a + b).last() == b.last());
    }
}

proof fn lemma_all_tiers(tiers: Seq<Seq<Seq<char>>>)
    ensures
        tracker_urls_of(tiers) == tier_urls(Seq::empty(), tiers.flatten()),
    decreases tiers.len(),
{
    tiers.lemma_flatten_and_flatten_alt_are_equivalent();
    if tiers.len() > 0 {
        let front = tiers.drop_last();
        lemma_all_tiers(front);
        front.lemma_flatten_and_flatten_alt_are_equivalent();
        lemma_tier_after_tier(Seq::empty(), front.flatten(), tiers.last());
        assert(tiers.flatten_alt() == front.flatten_alt() + tiers.last());
    }
}

/// The trackers that are asked are those of all tiers, one tier after the other,
/// that can be read and are asked over HTTP or UDP: each once, and where it
/// stands first.
pub proof fn law_trackers_are_asked_in_order(tiers: Seq<Seq<Seq<char>>>)
    ensures
        exists|kept: Seq<int>| #[trigger]
            are_trackers(tracker_urls_of(tiers), tiers.flatten(), kept),
{
    lemma_all_tiers(tiers);
    let kept = lemma_trackers(tiers.flatten());
    assert(are_trackers(tracker_urls_of(tiers), tiers.flatten(), kept));
}

/// A tracker has asked to be left alone until after some time.
pub open spec fn is_left_alone(entries: Seq<TrackerDue>, tracker: Seq<char>, now: u64) -> bool {
    url_of(tracker) is Ok && exists|i: int|
        0 <= i < entries.len() && (#[trigger] entries[i]).url@ == url_of(tracker)->Ok_0.text
            && entries[i].due > now
}

proof fn lemma_due(entries: Seq<TrackerDue>, tracker: Seq<char>, now: u64)
    requires
        unique_trackers(entries),
    ensures
        is_due(entries, tracker, now as int) == !is_left_alone(entries, tracker, now),
{
    if url_of(tracker) is Ok {
        let text = url_of(tracker)->Ok_0.text;
        lemma_due_at(entries, text, 0);
        let at = due_at(entries, text, 0);
        if is_left_alone(entries, tracker, now) {
            let i = choose|i: int|
                0 <= i < entries.len() && (#[trigger] entries[i]).url@ == text && entries[i].due
                    > now;
            if at < i {
                assert(entries[at].url@ != entries[i].url@);
            }
            assert(at == i);
        } else if at < entries.len() {
            assert(entries[at].url@ == text);
        }
    }
}

/// The trackers of a tier that are asked are those that did not ask to be left
/// alone until later.
pub proof fn law_due_trackers_are_asked(
    entries: Seq<TrackerDue>,
    tier: Seq<Seq<char>>,
    now: u64,
)
    requires
        unique_trackers(entries),
    ensures
        due_tier(entries, tier, now as int) == tier.filter(
            |tracker: Seq<char>| !is_left_alone(entries, tracker, now),
        ),
    decreases tier.len(),
{
    reveal(Seq::filter);
    if tier.len() > 0 {
        law_due_trackers_are_asked(entries, tier.drop_last(), now);
        lemma_due(entries, tier.last(), now);
    }
}

/// The tiers that are asked are those with a tracker that may be asked, reduced
/// to such trackers.
pub proof fn law_due_tiers_are_asked(
    entries: Seq<TrackerDue>,
    tiers: Seq<Seq<Seq<char>>>,
    now: u64,
)
    requires
        unique_trackers(entries),
    ensures
        due_tiers(entries, tiers, now as int) == tiers.map_values(
            |tier: Seq<Seq<char>>|
                tier.filter(|tracker: Seq<char>| !is_left_alone(entries, tracker, now)),
        ).filter(|tier: Seq<Seq<char>>| tier.len() > 0),
    decreases tiers.len(),
{
    let reduced = |tier: Seq<Seq<char>>|
        tier.filter(|tracker: Seq<char>| !is_left_alone(entries, tracker, now));
    let some = |tier: Seq<Seq<char>>| tier.len() > 0;
    reveal(Seq::filter);
    if tiers.len() > 0 {
        law_due_tiers_are_asked(entries, tiers.drop_last(), now);
        law_due_trackers_are_asked(entries, tiers.last(), now);
        assert(tiers.map_values(reduced).drop_last() =~= tiers.drop_last().map_values(reduced));
        assert(tiers.map_values(reduced).last() == reduced(tiers.last()));
    } else {
        assert(tiers.map_values(reduced).len() == 0);
    }
}

/// Of the hashes that are active, those are answered for that were asked about,
/// in order.
pub proof fn law_shared_hashes_were_asked_for(active: Seq<Seq<u8>>, asked: Seq<Seq<u8>>)
    ensures
        shared_hashes(active, asked) == active.filter(|hash: Seq<u8>| asked.contains(hash)),
    decreases active.len(),
{
    reveal(Seq::filter);
    if active.len() > 0 {
        law_shared_hashes_were_asked_for(active.drop_last(), asked);
    }
}

} // verus!
