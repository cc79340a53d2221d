//! Bounds on memory.

use bytes::Bytes;
use dendrite::budget::{BudgetAccount, CacheBudget, DownloadBudget, PieceCache};
use dendrite::peer_id::{generate_peer_id, number_from, peer_id_from};

#[test]
fn download_budget_bounds_reservations_but_never_starves_an_empty_account() {
    let mut shared = DownloadBudget::new(100);
    let mut first = BudgetAccount::new();
    let mut second = BudgetAccount::new();
    assert!(first.reserve(&mut shared, 80));
    assert!(!first.reserve(&mut shared, 30), "second reservation exceeds the limit");
    assert!(
        second.reserve(&mut shared, 30),
        "an empty account may always take one piece"
    );
    assert_eq!(shared.used, 110);
    assert!(!second.reserve(&mut shared, 1));
    first.release(&mut shared, 80);
    assert_eq!(shared.used, 30);
    assert!(second.reserve(&mut shared, 60));
    assert_eq!(shared.used, 90);
    second.close(&mut shared);
    assert_eq!(shared.used, 0, "closing an account returns what it held");
    first.close(&mut shared);
    assert_eq!(shared.used, 0);
}

#[test]
fn releasing_more_than_is_held_returns_what_is_held() {
    let mut shared = DownloadBudget::new(100);
    let mut account = BudgetAccount::new();
    let mut other = BudgetAccount::new();
    assert!(account.reserve(&mut shared, 10));
    assert!(other.reserve(&mut shared, 20));
    account.release(&mut shared, 50);
    assert_eq!(shared.used, 20);
    assert_eq!(account.held, 0);
}

#[test]
fn the_cache_lets_the_oldest_pieces_go() {
    let mut budget = CacheBudget::new(10);
    let mut cache = PieceCache::new();
    cache.insert(&mut budget, 1, Bytes::from(vec![1; 4]));
    cache.insert(&mut budget, 2, Bytes::from(vec![2; 4]));
    assert_eq!(cache.get(1), Some(Bytes::from(vec![1; 4])), "used last from now on");
    cache.insert(&mut budget, 3, Bytes::from(vec![3; 4]));
    assert_eq!(budget.used, 8);
    assert!(!budget.over_limit());
    assert_eq!(cache.get(2), None);
    assert_eq!(cache.get(1), Some(Bytes::from(vec![1; 4])));
    cache.insert(&mut budget, 9, Bytes::from(vec![9; 40]));
    assert_eq!(budget.used, 40, "the newest piece stays whatever its size");
    cache.close(&mut budget);
    assert_eq!(budget.used, 0);
}

#[test]
fn peer_ids_have_stable_prefix() {
    assert_eq!(&generate_peer_id().as_bytes()[..8], b"-SY2000-");
}

#[test]
fn peer_ids_are_printable() {
    let id = peer_id_from([0, 1, 9, 10, 35, 36, 61, 62, 63, 123, 124, 255]);
    assert_eq!(id.as_bytes(), b"-SY2000-019AZaz01z07");
    assert_ne!(generate_peer_id().as_bytes(), generate_peer_id().as_bytes());
}

#[test]
fn a_random_number_is_written_in_its_first_bytes() {
    assert_eq!(number_from([1, 2, 3, 4, 5, 6, 7, 8, 9, 10, 11, 12]), 0x0102_0304_0506_0708);
    assert_eq!(number_from([255; 12]), u64::MAX);
    assert_eq!(number_from([0, 0, 0, 0, 0, 0, 0, 0, 1, 1, 1, 1]), 0);
}
