use chain_access::pool::contains_hash;
use chain_access::pool::find_account;
use chain_access::pool::outbids_by;
use chain_access::pool::tip_of;
use chain_access::pool::validate;
use chain_access::pool::ChainUpdate;
use chain_access::pool::PooledTransaction;
use chain_access::pool::TransactionPool;
use chain_access::pool_model::AccountState;
use chain_access::pool_model::PoolConfig;
use chain_access::pool_model::RejectReason;
use chain_access::pool_model::TxStatus;
use chain_access::pool_model::ValidationFailure;
use chain_access::types::Address;
use chain_access::types::B256;

const BASE_FEE: u64 = 10;
const RICH: u128 = 1_000_000_000_000;

fn ph(n: u128) -> B256 {
    B256 { hi: 0, lo: n }
}

fn who(n: u128) -> Address {
    Address { hi: 0, lo: n }
}

fn config() -> PoolConfig {
    PoolConfig { block_gas_limit: 30_000_000, min_bump_percent: 10, max_size: 4, max_payload_bytes: 8 }
}

fn tx(hash: u128, sender: u128, nonce: u64, fee_cap: u128) -> PooledTransaction {
    PooledTransaction {
        hash: ph(hash),
        sender: who(sender),
        nonce,
        fee_cap,
        gas_limit: 21_000,
        payload: vec![1, 2, 3],
    }
}

fn hashes(txs: &Vec<PooledTransaction>) -> Vec<B256> {
    txs.iter().map(|t| t.hash).collect()
}

fn account_at(n: u128, nonce: u64, balance: u128) -> AccountState {
    AccountState { address: who(n), nonce, balance }
}

fn commit(mined: Vec<B256>, accounts: Vec<AccountState>) -> ChainUpdate {
    ChainUpdate { mined, unmined: vec![], accounts, base_fee: BASE_FEE }
}

#[test]
fn checks_fail_in_their_order() {
    let c = config();
    let good = tx(1, 1, 5, 20);
    assert_eq!(validate(&good, 5, RICH, &c), None);
    assert_eq!(validate(&good, 3, 21_000 * 20, &c), None);

    // a transaction that fails every check is malformed first
    let mut bad = tx(1, 1, 5, 20);
    bad.gas_limit = 0;
    assert_eq!(validate(&bad, 9, 0, &c), Some(ValidationFailure::Malformed));
    let mut long = tx(1, 1, 5, 20);
    long.payload = vec![0; 9];
    long.gas_limit = 40_000_000;
    assert_eq!(validate(&long, 9, 0, &c), Some(ValidationFailure::Malformed));

    // then the balance is looked at, before nonce and gas limit
    let mut heavy = tx(1, 1, 5, 20);
    heavy.gas_limit = 40_000_000;
    assert_eq!(
        validate(&heavy, 9, 40_000_000 * 20 - 1, &c),
        Some(ValidationFailure::InsufficientBalance)
    );
    assert_eq!(validate(&good, 5, 21_000 * 20 - 1, &c), Some(ValidationFailure::InsufficientBalance));

    // then the nonce, before the gas limit
    assert_eq!(validate(&heavy, 9, RICH, &c), Some(ValidationFailure::NonceTooLow));
    assert_eq!(validate(&good, 6, RICH, &c), Some(ValidationFailure::NonceTooLow));

    // then the gas limit
    assert_eq!(validate(&heavy, 5, RICH, &c), Some(ValidationFailure::GasLimitExceeded));
    let mut full = tx(1, 1, 5, 20);
    full.gas_limit = 30_000_000;
    assert_eq!(validate(&full, 5, RICH, &c), None);
}

#[test]
fn cost_beyond_every_balance_is_not_covered() {
    let mut t = tx(1, 1, 0, u128::MAX);
    t.gas_limit = 2;
    assert_eq!(
        validate(&t, 0, u128::MAX, &config()),
        Some(ValidationFailure::InsufficientBalance)
    );
}

#[test]
fn tip_is_what_the_fee_cap_leaves_above_the_base_fee() {
    assert_eq!(tip_of(15, 10), 5);
    assert_eq!(tip_of(10, 10), 0);
    assert_eq!(tip_of(3, 10), 0);
    assert_eq!(tip_of(u128::MAX, u64::MAX), u128::MAX - u64::MAX as u128);
}

#[test]
fn replacement_must_exceed_the_tip_by_more_than_the_bump() {
    assert!(!outbids_by(110, 100, 10));
    assert!(outbids_by(111, 100, 10));
    assert!(!outbids_by(100, 100, 0));
    assert!(outbids_by(101, 100, 0));
    assert!(!outbids_by(0, 0, 10));
    assert!(outbids_by(1, 0, 10));
    // 7 * 1.1 = 7.7: 8 exceeds it, 7 does not
    assert!(outbids_by(8, 7, 10));
    assert!(!outbids_by(7, 7, 10));
    // 15 * 1.1 = 16.5
    assert!(!outbids_by(16, 15, 10));
    assert!(outbids_by(17, 15, 10));
    assert!(!outbids_by(u128::MAX, u128::MAX, 10));
    assert!(outbids_by(u128::MAX, u128::MAX / 2, 10));
    // twice the half of the largest tip is one less than the largest tip
    assert!(outbids_by(u128::MAX, u128::MAX / 2, 100));
    assert!(!outbids_by(u128::MAX, u128::MAX / 2, 101));
    assert!(!outbids_by(u128::MAX, u128::MAX / 2, u32::MAX));
    assert!(outbids_by(u128::MAX, 1000, u32::MAX));
}

#[test]
fn higher_tip_ranks_first() {
    let mut p = TransactionPool::new(config(), BASE_FEE);
    // tips 3 and 5
    assert_eq!(p.submit(tx(1, 1, 0, 13), 0, RICH), Ok(ph(1)));
    assert_eq!(p.submit(tx(2, 2, 0, 15), 0, RICH), Ok(ph(2)));
    assert_eq!(hashes(&p.pending()), vec![ph(2), ph(1)]);
}

#[test]
fn equal_tips_rank_by_arrival() {
    let mut p = TransactionPool::new(config(), BASE_FEE);
    p.submit(tx(1, 1, 0, 15), 0, RICH).unwrap();
    p.submit(tx(2, 2, 0, 20), 0, RICH).unwrap();
    p.submit(tx(3, 3, 0, 15), 0, RICH).unwrap();
    // fee caps below the base fee leave no tip, whichever is lower
    p.submit(tx(4, 4, 0, 2), 0, RICH).unwrap();
    assert_eq!(hashes(&p.pending()), vec![ph(2), ph(1), ph(3), ph(4)]);
    assert_eq!(p.pending()[0], tx(2, 2, 0, 20));
}

#[test]
fn transactions_below_the_base_fee_tie_and_rank_by_arrival() {
    let mut p = TransactionPool::new(config(), BASE_FEE);
    p.submit(tx(1, 1, 0, 2), 0, RICH).unwrap();
    p.submit(tx(2, 2, 0, 9), 0, RICH).unwrap();
    p.submit(tx(3, 3, 0, 10), 0, RICH).unwrap();
    assert_eq!(hashes(&p.pending()), vec![ph(1), ph(2), ph(3)]);
}

#[test]
fn nonce_above_the_account_nonce_is_held() {
    let mut p = TransactionPool::new(config(), BASE_FEE);
    assert_eq!(p.submit(tx(1, 1, 7, 50), 5, RICH), Ok(ph(1)));
    assert_eq!(p.submit(tx(2, 2, 5, 12), 5, RICH), Ok(ph(2)));
    assert_eq!(p.len(), 2);
    assert_eq!(p.status_of(&ph(1)), Some(TxStatus::Future));
    assert_eq!(p.status_of(&ph(2)), Some(TxStatus::Pending));
    assert_eq!(p.status_of(&ph(3)), None);
    assert_eq!(hashes(&p.pending()), vec![ph(2)]);
}

#[test]
fn rejected_transaction_leaves_the_pool_as_it_was() {
    let mut p = TransactionPool::new(config(), BASE_FEE);
    assert_eq!(
        p.submit(tx(1, 1, 4, 50), 5, RICH),
        Err(RejectReason::ValidationFailed { reason: ValidationFailure::NonceTooLow })
    );
    assert_eq!(
        p.submit(tx(1, 1, 5, 50), 5, 10),
        Err(RejectReason::ValidationFailed { reason: ValidationFailure::InsufficientBalance })
    );
    assert_eq!(p.len(), 0);
    assert!(!p.contains(&ph(1)));
}

#[test]
fn known_hash_is_rejected() {
    let mut p = TransactionPool::new(config(), BASE_FEE);
    p.submit(tx(1, 1, 0, 15), 0, RICH).unwrap();
    assert_eq!(p.submit(tx(1, 2, 0, 99), 0, RICH), Err(RejectReason::AlreadyKnown));
    assert_eq!(p.len(), 1);
    assert_eq!(p.pending()[0], tx(1, 1, 0, 15));
}

#[test]
fn replacement_needs_the_minimum_bump() {
    let mut p = TransactionPool::new(config(), BASE_FEE);
    // tip 100
    p.submit(tx(1, 1, 0, 110), 0, RICH).unwrap();
    p.submit(tx(9, 9, 0, 60), 0, RICH).unwrap();
    // tips 100 and 110 do not exceed 110
    assert_eq!(p.submit(tx(2, 1, 0, 110), 0, RICH), Err(RejectReason::Underpriced));
    assert_eq!(p.submit(tx(3, 1, 0, 120), 0, RICH), Err(RejectReason::Underpriced));
    assert_eq!(hashes(&p.pending()), vec![ph(1), ph(9)]);
    // tip 111 does
    assert_eq!(p.submit(tx(4, 1, 0, 121), 0, RICH), Ok(ph(4)));
    assert_eq!(p.len(), 2);
    assert!(!p.contains(&ph(1)));
    assert_eq!(hashes(&p.pending()), vec![ph(4), ph(9)]);
}

#[test]
fn full_pool_rejects_new_senders_but_takes_replacements() {
    let mut p = TransactionPool::new(config(), BASE_FEE);
    for i in 1..=4u128 {
        p.submit(tx(i, i, 0, 20), 0, RICH).unwrap();
    }
    assert_eq!(p.submit(tx(5, 5, 0, 99), 0, RICH), Err(RejectReason::PoolFull));
    assert_eq!(p.submit(tx(6, 1, 1, 99), 0, RICH), Err(RejectReason::PoolFull));
    assert_eq!(p.submit(tx(7, 1, 0, 99), 0, RICH), Ok(ph(7)));
    assert_eq!(p.len(), 4);
    assert_eq!(hashes(&p.pending()), vec![ph(7), ph(2), ph(3), ph(4)]);
}

#[test]
fn included_transaction_leaves_the_pool() {
    let mut p = TransactionPool::new(config(), BASE_FEE);
    p.submit(tx(1, 1, 0, 15), 0, RICH).unwrap();
    p.submit(tx(2, 2, 0, 13), 0, RICH).unwrap();
    let changes = p.on_canonical_change(&commit(vec![ph(7), ph(1)], vec![account_at(1, 1, RICH)]));
    assert_eq!(changes.included, vec![ph(1)]);
    assert_eq!(changes.discarded, vec![]);
    assert_eq!(changes.requeued, vec![]);
    assert!(!p.contains(&ph(1)));
    assert_eq!(hashes(&p.pending()), vec![ph(2)]);
}

#[test]
fn transactions_that_no_longer_pass_are_discarded() {
    let mut p = TransactionPool::new(config(), BASE_FEE);
    p.submit(tx(1, 1, 0, 15), 0, RICH).unwrap();
    p.submit(tx(2, 1, 1, 15), 0, RICH).unwrap();
    p.submit(tx(3, 2, 0, 15), 0, RICH).unwrap();
    p.submit(tx(4, 3, 0, 15), 0, RICH).unwrap();
    assert_eq!(hashes(&p.pending()), vec![ph(1), ph(3), ph(4)]);
    // sender 1 has used nonce 0; sender 2 has spent its balance; sender 3 is untouched
    let changes = p.on_canonical_change(&commit(
        vec![],
        vec![account_at(1, 1, RICH), account_at(2, 0, 21_000 * 15 - 1)],
    ));
    assert_eq!(changes.included, vec![]);
    assert_eq!(changes.discarded, vec![ph(1), ph(3)]);
    assert_eq!(p.len(), 2);
    // the held transaction of sender 1 is ranked now
    assert_eq!(p.status_of(&ph(2)), Some(TxStatus::Pending));
    assert_eq!(hashes(&p.pending()), vec![ph(2), ph(4)]);
}

#[test]
fn pending_transaction_is_held_when_the_account_nonce_falls_behind() {
    let mut p = TransactionPool::new(config(), BASE_FEE);
    p.submit(tx(1, 1, 5, 15), 5, RICH).unwrap();
    assert_eq!(p.status_of(&ph(1)), Some(TxStatus::Pending));
    p.on_canonical_change(&commit(vec![], vec![account_at(1, 3, RICH)]));
    assert_eq!(p.status_of(&ph(1)), Some(TxStatus::Future));
    assert_eq!(p.pending(), vec![]);
}

#[test]
fn base_fee_of_the_next_block_changes_the_ranking() {
    let mut p = TransactionPool::new(config(), BASE_FEE);
    p.submit(tx(1, 1, 0, 15), 0, RICH).unwrap();
    p.submit(tx(2, 2, 0, 20), 0, RICH).unwrap();
    assert_eq!(hashes(&p.pending()), vec![ph(2), ph(1)]);
    let mut update = commit(vec![], vec![]);
    update.base_fee = 30;
    p.on_canonical_change(&update);
    assert_eq!(p.base_fee(), 30);
    // no tip is left to either: the earlier one ranks first
    assert_eq!(hashes(&p.pending()), vec![ph(1), ph(2)]);
}

#[test]
fn transaction_of_a_discarded_block_is_queued_again() {
    let mut p = TransactionPool::new(config(), BASE_FEE);
    p.submit(tx(1, 1, 0, 15), 0, RICH).unwrap();
    p.submit(tx(2, 2, 0, 13), 0, RICH).unwrap();
    // a block includes transaction 1
    p.on_canonical_change(&commit(vec![ph(1)], vec![account_at(1, 1, RICH)]));
    assert_eq!(hashes(&p.pending()), vec![ph(2)]);
    // the block is discarded; the block adopted in its place includes transaction 2 only
    let changes = p.on_canonical_change(&ChainUpdate {
        mined: vec![ph(2)],
        unmined: vec![tx(1, 1, 0, 15)],
        accounts: vec![account_at(1, 0, RICH), account_at(2, 1, RICH)],
        base_fee: BASE_FEE,
    });
    assert_eq!(changes.included, vec![ph(2)]);
    assert_eq!(changes.requeued, vec![ph(1)]);
    assert!(p.contains(&ph(1)));
    assert_eq!(p.pending(), vec![tx(1, 1, 0, 15)]);
}

#[test]
fn transaction_of_a_discarded_block_that_the_new_block_includes_stays_out() {
    let mut p = TransactionPool::new(config(), BASE_FEE);
    let changes = p.on_canonical_change(&ChainUpdate {
        mined: vec![ph(1)],
        unmined: vec![tx(1, 1, 0, 15), tx(2, 2, 0, 15)],
        accounts: vec![account_at(1, 1, RICH), account_at(2, 0, RICH)],
        base_fee: BASE_FEE,
    });
    assert_eq!(changes.requeued, vec![ph(2)]);
    assert!(!p.contains(&ph(1)));
    assert!(p.contains(&ph(2)));
}

#[test]
fn transaction_of_a_discarded_block_that_no_longer_passes_is_dropped() {
    let mut p = TransactionPool::new(config(), BASE_FEE);
    let changes = p.on_canonical_change(&ChainUpdate {
        mined: vec![],
        // the nonce of sender 1 has moved on; the account of sender 2 is not known;
        // sender 3 can no longer pay
        unmined: vec![tx(1, 1, 0, 15), tx(2, 2, 0, 15), tx(3, 3, 0, 15), tx(4, 4, 2, 15)],
        accounts: vec![account_at(1, 1, RICH), account_at(3, 0, 5), account_at(4, 1, RICH)],
        base_fee: BASE_FEE,
    });
    assert_eq!(changes.requeued, vec![ph(4)]);
    assert_eq!(p.len(), 1);
    assert_eq!(p.status_of(&ph(4)), Some(TxStatus::Future));
}

#[test]
fn queueing_again_is_not_bound_by_the_size_of_the_pool() {
    let mut p = TransactionPool::new(config(), BASE_FEE);
    for i in 1..=4u128 {
        p.submit(tx(i, i, 0, 20), 0, RICH).unwrap();
    }
    let changes = p.on_canonical_change(&ChainUpdate {
        mined: vec![],
        unmined: vec![tx(5, 5, 0, 30)],
        accounts: vec![account_at(5, 0, RICH)],
        base_fee: BASE_FEE,
    });
    assert_eq!(changes.requeued, vec![ph(5)]);
    assert_eq!(p.len(), 5);
    assert_eq!(hashes(&p.pending()), vec![ph(5), ph(1), ph(2), ph(3), ph(4)]);
}

#[test]
fn hashes_and_accounts_are_found() {
    assert!(contains_hash(&vec![ph(1), ph(2)], &ph(2)));
    assert!(!contains_hash(&vec![ph(1), ph(2)], &ph(3)));
    let accounts = vec![account_at(1, 1, 10), account_at(2, 2, 20), account_at(1, 9, 90)];
    assert_eq!(find_account(&accounts, &who(1)), Some(account_at(1, 1, 10)));
    assert_eq!(find_account(&accounts, &who(2)), Some(account_at(2, 2, 20)));
    assert_eq!(find_account(&accounts, &who(3)), None);
}

#[test]
fn transaction_is_duplicated() {
    let t = tx(1, 1, 0, 15);
    assert_eq!(t.duplicate(), t);
}
