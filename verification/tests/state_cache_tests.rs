use chain_access::state_cache::Lookup;
use chain_access::state_cache::StateCache;
use chain_access::state_cache::StateKey;
use chain_access::types::Address;
use chain_access::types::BlockRef;
use chain_access::types::ChainNotification;
use chain_access::types::B256;

fn sh(n: u128) -> B256 {
    B256 { hi: 0, lo: n }
}

fn sblock(hash: u128, number: u64, parent: u128) -> BlockRef {
    BlockRef { hash: sh(hash), number, parent_hash: sh(parent) }
}

fn account(n: u128) -> StateKey {
    StateKey::Account { address: Address { hi: 0, lo: n } }
}

fn slot(n: u128, s: u128) -> StateKey {
    StateKey::Storage { address: Address { hi: 0, lo: n }, slot: sh(s) }
}

#[test]
fn inserted_value_is_read_at_its_block_only() {
    let mut c = StateCache::new(4);
    c.insert(sblock(1, 1, 0), account(7), sh(100));
    assert_eq!(c.get(&sblock(1, 1, 0), &account(7)), Some(sh(100)));
    assert_eq!(c.get(&sblock(2, 2, 1), &account(7)), None);
    assert_eq!(c.get(&sblock(1, 1, 0), &account(8)), None);
    assert_eq!(c.get(&sblock(1, 1, 0), &slot(7, 0)), None);
    assert_eq!(c.len(), 1);
}

#[test]
fn second_insert_replaces_the_value() {
    let mut c = StateCache::new(4);
    c.insert(sblock(1, 1, 0), slot(7, 3), sh(100));
    c.insert(sblock(1, 1, 0), slot(7, 3), sh(200));
    assert_eq!(c.len(), 1);
    assert_eq!(c.get(&sblock(1, 1, 0), &slot(7, 3)), Some(sh(200)));
}

#[test]
fn least_recently_used_entry_leaves_a_full_cache() {
    let mut c = StateCache::new(2);
    c.insert(sblock(1, 1, 0), account(1), sh(1));
    c.insert(sblock(1, 1, 0), account(2), sh(2));
    // reading the first entry makes the second the least recently used
    assert_eq!(c.get(&sblock(1, 1, 0), &account(1)), Some(sh(1)));
    c.insert(sblock(1, 1, 0), account(3), sh(3));
    assert_eq!(c.len(), 2);
    assert_eq!(c.get(&sblock(1, 1, 0), &account(2)), None);
    assert_eq!(c.get(&sblock(1, 1, 0), &account(1)), Some(sh(1)));
    assert_eq!(c.get(&sblock(1, 1, 0), &account(3)), Some(sh(3)));
}

#[test]
fn cache_of_no_capacity_holds_nothing() {
    let mut c = StateCache::new(0);
    c.insert(sblock(1, 1, 0), account(1), sh(1));
    assert_eq!(c.len(), 0);
    assert_eq!(c.get(&sblock(1, 1, 0), &account(1)), None);
}

#[test]
fn commit_evicts_nothing() {
    let mut c = StateCache::new(4);
    c.insert(sblock(1, 1, 0), account(1), sh(1));
    c.on_notification(&ChainNotification::Commit { new: vec![sblock(2, 2, 1)] });
    assert_eq!(c.get(&sblock(1, 1, 0), &account(1)), Some(sh(1)));
}

#[test]
fn reorg_evicts_the_entries_of_discarded_blocks() {
    let mut c = StateCache::new(8);
    c.insert(sblock(1, 1, 0), account(1), sh(1));
    c.insert(sblock(2, 2, 1), account(1), sh(2));
    c.insert(sblock(3, 3, 2), account(1), sh(3));
    c.insert(sblock(3, 3, 2), slot(1, 9), sh(4));
    c.on_notification(&ChainNotification::Reorg {
        old: vec![sblock(2, 2, 1), sblock(3, 3, 2)],
        new: vec![sblock(12, 2, 1)],
    });
    assert_eq!(c.len(), 1);
    assert_eq!(c.get(&sblock(1, 1, 0), &account(1)), Some(sh(1)));
    assert_eq!(c.get(&sblock(2, 2, 1), &account(1)), None);
    assert_eq!(c.get(&sblock(3, 3, 2), &account(1)), None);
    assert_eq!(c.get(&sblock(3, 3, 2), &slot(1, 9)), None);
}

#[test]
fn readers_that_miss_the_same_state_share_one_fetch() {
    let mut c = StateCache::new(4);
    assert_eq!(c.lookup(&sblock(1, 1, 0), &account(1)), Lookup::Fetch);
    assert_eq!(c.lookup(&sblock(1, 1, 0), &account(1)), Lookup::Wait);
    assert_eq!(c.lookup(&sblock(1, 1, 0), &account(1)), Lookup::Wait);
    // another state is fetched on its own
    assert_eq!(c.lookup(&sblock(1, 1, 0), &account(2)), Lookup::Fetch);
    assert_eq!(c.in_flight_len(), 2);
    assert!(c.fulfill(sblock(1, 1, 0), account(1), sh(55)));
    assert_eq!(c.in_flight_len(), 1);
    assert_eq!(c.lookup(&sblock(1, 1, 0), &account(1)), Lookup::Hit { value: sh(55) });
}

#[test]
fn value_of_a_fetch_nobody_awaits_is_dropped() {
    let mut c = StateCache::new(4);
    assert!(!c.fulfill(sblock(1, 1, 0), account(1), sh(55)));
    assert_eq!(c.len(), 0);
}

#[test]
fn abandoned_fetch_is_fetched_again() {
    let mut c = StateCache::new(4);
    assert_eq!(c.lookup(&sblock(1, 1, 0), &account(1)), Lookup::Fetch);
    c.abandon(sblock(1, 1, 0), account(1));
    assert_eq!(c.in_flight_len(), 0);
    assert_eq!(c.lookup(&sblock(1, 1, 0), &account(1)), Lookup::Fetch);
}

#[test]
fn fetch_of_a_discarded_block_brings_nothing_into_the_cache() {
    let mut c = StateCache::new(4);
    assert_eq!(c.lookup(&sblock(2, 2, 1), &account(1)), Lookup::Fetch);
    assert_eq!(c.lookup(&sblock(1, 1, 0), &account(1)), Lookup::Fetch);
    c.on_notification(&ChainNotification::Reorg {
        old: vec![sblock(2, 2, 1)],
        new: vec![sblock(12, 2, 1)],
    });
    assert_eq!(c.in_flight_len(), 1);
    assert!(!c.fulfill(sblock(2, 2, 1), account(1), sh(9)));
    assert_eq!(c.get(&sblock(2, 2, 1), &account(1)), None);
    assert!(c.fulfill(sblock(1, 1, 0), account(1), sh(8)));
    assert_eq!(c.get(&sblock(1, 1, 0), &account(1)), Some(sh(8)));
}
