use chain_access::facade::Config;
use chain_access::facade::QueryFacade;
use chain_access::facade::StateAnswer;
use chain_access::fee_history::FeeHistoryError;
use chain_access::fee_history::FeeSample;
use chain_access::fee_history::GasRatio;
use chain_access::gas_price::BlockPrices;
use chain_access::gas_price::OracleError;
use chain_access::pool::ChainUpdate;
use chain_access::pool::PooledTransaction;
use chain_access::pool_model::AccountState;
use chain_access::pool_model::PoolConfig;
use chain_access::state_cache::StateKey;
use chain_access::subscription::SubscriptionError;
use chain_access::tracker::TrackerError;
use chain_access::types::Address;
use chain_access::types::BlockRef;
use chain_access::types::ChainNotification;
use chain_access::types::B256;

fn xh(n: u128) -> B256 {
    B256 { hi: 0, lo: n }
}

fn xblock(hash: u128, number: u64, parent: u128) -> BlockRef {
    BlockRef { hash: xh(hash), number, parent_hash: xh(parent) }
}

fn xkey(n: u128) -> StateKey {
    StateKey::Account { address: Address { hi: 0, lo: n } }
}

fn facade_config() -> Config {
    Config {
        state_cache_capacity: 8,
        fee_history_window: 4,
        gas_price_sample_window: 2,
        gas_price_percentile: 60,
        pool: PoolConfig {
            block_gas_limit: 30_000_000,
            min_bump_percent: 10,
            max_size: 16,
            max_payload_bytes: 64,
        },
        max_reorg_depth: 3,
        subscriber_queue_capacity: 2,
    }
}

fn facade() -> QueryFacade {
    QueryFacade::new(xblock(1, 1, 0), 10, facade_config())
}

fn xsample(block_number: u64) -> FeeSample {
    FeeSample {
        block_number,
        base_fee_per_gas: 10,
        gas_used_ratio: GasRatio { used: 1, limit: 2 },
        reward_percentiles: vec![],
    }
}

fn xtx(hash: u128, sender: u128, fee_cap: u128) -> PooledTransaction {
    PooledTransaction {
        hash: xh(hash),
        sender: Address { hi: 0, lo: sender },
        nonce: 0,
        fee_cap,
        gas_limit: 21_000,
        payload: vec![],
    }
}

#[test]
fn state_is_cached_for_canonical_blocks_only() {
    let mut f = facade();
    let head = f.head();
    assert_eq!(head, xblock(1, 1, 0));
    // a block that is not canonical goes past the cache
    assert_eq!(f.account_state(&xblock(9, 9, 8), &xkey(1)), StateAnswer::Bypass);
    assert!(!f.fulfill_state(xblock(9, 9, 8), xkey(1), xh(5)));
    assert_eq!(f.account_state(&xblock(9, 9, 8), &xkey(1)), StateAnswer::Bypass);
    // the first reader of a canonical block fetches, the next ones wait
    assert_eq!(f.account_state(&head, &xkey(1)), StateAnswer::Fetch);
    assert_eq!(f.account_state(&head, &xkey(1)), StateAnswer::Wait);
    assert!(f.fulfill_state(head, xkey(1), xh(5)));
    assert_eq!(f.account_state(&head, &xkey(1)), StateAnswer::Hit { value: xh(5) });
}

#[test]
fn failed_fetch_is_fetched_again() {
    let mut f = facade();
    let head = f.head();
    assert_eq!(f.account_state(&head, &xkey(1)), StateAnswer::Fetch);
    f.abandon_state(head, xkey(1));
    assert_eq!(f.account_state(&head, &xkey(1)), StateAnswer::Fetch);
}

#[test]
fn reorg_takes_the_state_of_discarded_blocks_out_of_the_cache() {
    let mut f = facade();
    let genesis = f.head();
    f.advance(&vec![xblock(2, 2, 1)]).unwrap();
    let b2 = f.head();
    assert_eq!(f.account_state(&genesis, &xkey(1)), StateAnswer::Fetch);
    assert!(f.fulfill_state(genesis, xkey(1), xh(11)));
    assert_eq!(f.account_state(&b2, &xkey(1)), StateAnswer::Fetch);
    assert!(f.fulfill_state(b2, xkey(1), xh(22)));
    assert_eq!(f.account_state(&b2, &xkey(2)), StateAnswer::Fetch);

    let n = f.advance(&vec![xblock(12, 2, 1)]).unwrap();
    assert_eq!(n, ChainNotification::Reorg { old: vec![b2], new: vec![xblock(12, 2, 1)] });
    // the discarded block is served no longer, and what was fetched for it is dropped
    assert_eq!(f.account_state(&b2, &xkey(1)), StateAnswer::Bypass);
    assert!(!f.fulfill_state(b2, xkey(2), xh(33)));
    // the ancestor keeps its value, the adopted block starts empty
    assert_eq!(f.account_state(&genesis, &xkey(1)), StateAnswer::Hit { value: xh(11) });
    assert_eq!(f.account_state(&xblock(12, 2, 1), &xkey(1)), StateAnswer::Fetch);
}

#[test]
fn advance_reports_the_errors_of_the_tracker() {
    let mut f = facade();
    assert_eq!(f.advance(&vec![]), Err(TrackerError::InvalidSegment));
    assert_eq!(f.advance(&vec![xblock(50, 50, 49)]), Err(TrackerError::DeepReorgUnsupported));
    assert_eq!(f.advance(&vec![xblock(1, 1, 0)]), Err(TrackerError::NothingNew));
    assert_eq!(f.head(), xblock(1, 1, 0));
}

#[test]
fn gas_price_is_suggested_at_the_head_and_forgotten_when_it_moves() {
    let mut f = facade();
    assert_eq!(f.price_window(), 2);
    assert_eq!(f.cached_gas_price(), None);
    assert_eq!(f.suggest_gas_price(&vec![]), Err(OracleError::NoSamplesAvailable));
    let blocks = vec![BlockPrices { block: xblock(1, 1, 0), prices: vec![1, 2, 3, 4, 5] }];
    assert_eq!(f.suggest_gas_price(&blocks), Ok(3));
    assert_eq!(f.cached_gas_price(), Some(3));
    f.advance(&vec![xblock(2, 2, 1)]).unwrap();
    assert_eq!(f.cached_gas_price(), None);
}

#[test]
fn fee_history_follows_the_notifications() {
    let mut f = facade();
    let n = f.advance(&vec![xblock(2, 2, 1), xblock(3, 3, 2)]).unwrap();
    f.record_fees(&n, &vec![xsample(2), xsample(3)]);
    assert_eq!(f.fee_history(2, 2), Ok(vec![xsample(2), xsample(3)]));
    assert_eq!(f.fee_history(1, 2), Err(FeeHistoryError::InsufficientHistory));
    let n = f.advance(&vec![xblock(13, 3, 2)]).unwrap();
    let mut replaced = xsample(3);
    replaced.base_fee_per_gas = 77;
    f.record_fees(&n, &vec![replaced.clone()]);
    assert_eq!(f.fee_history(2, 2), Ok(vec![xsample(2), replaced]));
}

#[test]
fn pool_takes_submissions_and_follows_the_chain() {
    let mut f = facade();
    assert_eq!(f.submit(xtx(1, 1, 13), 0, 1_000_000_000), Ok(xh(1)));
    assert_eq!(f.submit(xtx(2, 2, 15), 0, 1_000_000_000), Ok(xh(2)));
    assert_eq!(f.pending_transactions(), vec![xtx(2, 2, 15), xtx(1, 1, 13)]);
    let changes = f.follow_pool(&ChainUpdate {
        mined: vec![xh(2)],
        unmined: vec![],
        accounts: vec![AccountState { address: Address { hi: 0, lo: 2 }, nonce: 1, balance: 5 }],
        base_fee: 10,
    });
    assert_eq!(changes.included, vec![xh(2)]);
    assert_eq!(f.pending_transactions(), vec![xtx(1, 1, 13)]);
}

#[test]
fn subscribers_of_the_facade_are_handed_what_advance_publishes() {
    let mut f = facade();
    let a = f.subscribe().unwrap();
    let n = f.advance(&vec![xblock(2, 2, 1)]).unwrap();
    assert_eq!(f.poll(a), Ok(Some(n)));
    assert_eq!(f.poll(a), Ok(None));
    // three notifications overflow a queue of two
    f.advance(&vec![xblock(3, 3, 2)]).unwrap();
    f.advance(&vec![xblock(4, 4, 3)]).unwrap();
    f.advance(&vec![xblock(5, 5, 4)]).unwrap();
    assert_eq!(f.poll(a), Err(SubscriptionError::Lagged));
    assert_eq!(f.poll(a), Err(SubscriptionError::Closed));
    assert!(!f.unsubscribe(a));
    let b = f.subscribe().unwrap();
    assert!(f.unsubscribe(b));
}

#[test]
fn facade_made_with_a_chain_serves_its_retained_blocks() {
    let chain = vec![xblock(1, 1, 0), xblock(2, 2, 1), xblock(3, 3, 2)];
    let mut f = QueryFacade::with_chain(&chain, 10, facade_config()).unwrap();
    assert_eq!(f.head(), xblock(3, 3, 2));
    assert_eq!(f.account_state(&xblock(2, 2, 1), &xkey(1)), StateAnswer::Fetch);
    assert!(QueryFacade::with_chain(&vec![], 10, facade_config()).is_none());
    assert!(QueryFacade::with_chain(&vec![xblock(1, 1, 0), xblock(2, 2, 7)], 10, facade_config()).is_none());
}
