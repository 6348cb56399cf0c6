use chain_access::fee_history::sort_rewards;
use chain_access::fee_history::FeeHistoryCache;
use chain_access::fee_history::FeeHistoryError;
use chain_access::fee_history::FeeSample;
use chain_access::fee_history::GasRatio;
use chain_access::fee_history::PercentileReward;
use chain_access::types::BlockRef;
use chain_access::types::ChainNotification;
use chain_access::types::B256;

fn pr(percentile: u32, reward: u128) -> PercentileReward {
    PercentileReward { percentile, reward }
}

fn sample(block_number: u64, base_fee: u64) -> FeeSample {
    FeeSample {
        block_number,
        base_fee_per_gas: base_fee,
        gas_used_ratio: GasRatio { used: 15_000_000, limit: 30_000_000 },
        reward_percentiles: vec![pr(25, 1), pr(50, 2), pr(75, 3)],
    }
}

fn fblock(hash: u128, number: u64, parent: u128) -> BlockRef {
    BlockRef {
        hash: B256 { hi: 0, lo: hash },
        number,
        parent_hash: B256 { hi: 0, lo: parent },
    }
}

#[test]
fn recorded_samples_come_back_in_block_order() {
    let mut c = FeeHistoryCache::new(8);
    for n in 10..15u64 {
        c.record(sample(n, 100 + n));
    }
    assert_eq!(c.len(), 5);
    assert_eq!(c.bounds(), Some((10, 14)));
    let all = c.range_query(10, 5).unwrap();
    assert_eq!(all, vec![sample(10, 110), sample(11, 111), sample(12, 112), sample(13, 113), sample(14, 114)]);
    let some = c.range_query(12, 2).unwrap();
    assert_eq!(some, vec![sample(12, 112), sample(13, 113)]);
}

#[test]
fn range_beyond_the_window_is_insufficient_history() {
    let mut c = FeeHistoryCache::new(8);
    for n in 10..15u64 {
        c.record(sample(n, 100));
    }
    assert_eq!(c.range_query(9, 2), Err(FeeHistoryError::InsufficientHistory));
    assert_eq!(c.range_query(9, 1), Err(FeeHistoryError::InsufficientHistory));
    assert_eq!(c.range_query(14, 2), Err(FeeHistoryError::InsufficientHistory));
    assert_eq!(c.range_query(15, 1), Err(FeeHistoryError::InsufficientHistory));
    assert_eq!(c.range_query(10, 6), Err(FeeHistoryError::InsufficientHistory));
    assert_eq!(c.range_query(u64::MAX, 2), Err(FeeHistoryError::InsufficientHistory));
    assert_eq!(c.range_query(10, u64::MAX), Err(FeeHistoryError::InsufficientHistory));
}

#[test]
fn empty_range_is_always_covered() {
    let mut c = FeeHistoryCache::new(8);
    assert_eq!(c.range_query(3, 0), Ok(vec![]));
    assert_eq!(c.range_query(3, 1), Err(FeeHistoryError::InsufficientHistory));
    assert_eq!(c.bounds(), None);
    c.record(sample(10, 100));
    assert_eq!(c.range_query(3, 0), Ok(vec![]));
}

#[test]
fn oldest_sample_leaves_a_full_window() {
    let mut c = FeeHistoryCache::new(3);
    for n in 10..15u64 {
        c.record(sample(n, 100));
    }
    assert_eq!(c.len(), 3);
    assert_eq!(c.bounds(), Some((12, 14)));
    assert_eq!(c.range_query(11, 1), Err(FeeHistoryError::InsufficientHistory));
    assert_eq!(c.range_query(12, 3).unwrap().len(), 3);
}

#[test]
fn window_of_no_samples_retains_nothing() {
    let mut c = FeeHistoryCache::new(0);
    c.record(sample(10, 100));
    assert_eq!(c.len(), 0);
}

#[test]
fn sample_at_a_recorded_height_replaces_what_lay_above() {
    let mut c = FeeHistoryCache::new(8);
    for n in 10..15u64 {
        c.record(sample(n, 100));
    }
    c.record(sample(12, 999));
    assert_eq!(c.bounds(), Some((10, 12)));
    assert_eq!(c.range_query(10, 3).unwrap(), vec![sample(10, 100), sample(11, 100), sample(12, 999)]);
    assert_eq!(c.range_query(13, 1), Err(FeeHistoryError::InsufficientHistory));
}

#[test]
fn gap_in_the_window_is_not_covered() {
    let mut c = FeeHistoryCache::new(8);
    c.record(sample(10, 100));
    c.record(sample(12, 100));
    assert_eq!(c.range_query(10, 3), Err(FeeHistoryError::InsufficientHistory));
    assert_eq!(c.range_query(11, 1), Err(FeeHistoryError::InsufficientHistory));
    assert_eq!(c.range_query(12, 1).unwrap(), vec![sample(12, 100)]);
}

#[test]
fn samples_from_a_height_on_are_discarded() {
    let mut c = FeeHistoryCache::new(8);
    for n in 10..15u64 {
        c.record(sample(n, 100));
    }
    c.discard_from(13);
    assert_eq!(c.bounds(), Some((10, 12)));
    c.discard_from(0);
    assert_eq!(c.len(), 0);
}

#[test]
fn reorg_replaces_the_samples_of_the_discarded_blocks() {
    let mut c = FeeHistoryCache::new(8);
    c.on_notification(
        &ChainNotification::Commit { new: vec![fblock(10, 10, 9), fblock(11, 11, 10), fblock(12, 12, 11)] },
        &vec![sample(10, 100), sample(11, 101), sample(12, 102)],
    );
    assert_eq!(c.bounds(), Some((10, 12)));
    c.on_notification(
        &ChainNotification::Reorg {
            old: vec![fblock(11, 11, 10), fblock(12, 12, 11)],
            new: vec![fblock(21, 11, 10)],
        },
        &vec![sample(11, 555)],
    );
    assert_eq!(c.bounds(), Some((10, 11)));
    assert_eq!(c.range_query(10, 2).unwrap(), vec![sample(10, 100), sample(11, 555)]);
}

#[test]
fn reorg_without_samples_still_drops_the_discarded_heights() {
    let mut c = FeeHistoryCache::new(8);
    for n in 10..13u64 {
        c.record(sample(n, 100));
    }
    c.on_notification(
        &ChainNotification::Reorg { old: vec![fblock(12, 12, 11)], new: vec![fblock(22, 12, 11)] },
        &vec![],
    );
    assert_eq!(c.bounds(), Some((10, 11)));
}

#[test]
fn rewards_are_sorted_by_percentile_when_recorded() {
    let mut c = FeeHistoryCache::new(8);
    let mut s = sample(10, 100);
    s.reward_percentiles = vec![pr(90, 9), pr(10, 1), pr(50, 5), pr(10, 2)];
    c.record(s);
    let got = c.range_query(10, 1).unwrap();
    assert_eq!(got[0].reward_percentiles, vec![pr(10, 1), pr(10, 2), pr(50, 5), pr(90, 9)]);
}

#[test]
fn sorting_keeps_the_order_of_equal_percentiles() {
    assert_eq!(sort_rewards(&vec![]), vec![]);
    assert_eq!(
        sort_rewards(&vec![pr(50, 7), pr(25, 8), pr(50, 1), pr(25, 2)]),
        vec![pr(25, 8), pr(25, 2), pr(50, 7), pr(50, 1)]
    );
}

#[test]
fn recorded_percentile_gives_its_reward() {
    let s = sample(10, 100);
    assert_eq!(s.reward_at(25), Some(1));
    assert_eq!(s.reward_at(50), Some(2));
    assert_eq!(s.reward_at(75), Some(3));
}

#[test]
fn percentile_between_two_recorded_ones_is_interpolated() {
    let mut s = sample(10, 100);
    s.reward_percentiles = vec![pr(25, 100), pr(75, 200)];
    assert_eq!(s.reward_at(50), Some(150));
    assert_eq!(s.reward_at(30), Some(110));
    assert_eq!(s.reward_at(74), Some(198));
    // falling rewards
    s.reward_percentiles = vec![pr(25, 200), pr(75, 100)];
    assert_eq!(s.reward_at(30), Some(190));
    assert_eq!(s.reward_at(50), Some(150));
    // the result is rounded towards the reward of the lower percentile
    s.reward_percentiles = vec![pr(25, 0), pr(75, 10)];
    assert_eq!(s.reward_at(26), Some(0));
    assert_eq!(s.reward_at(30), Some(1));
    s.reward_percentiles = vec![pr(25, 10), pr(75, 0)];
    assert_eq!(s.reward_at(26), Some(10));
}

#[test]
fn interpolation_bears_the_largest_rewards() {
    let mut s = sample(10, 100);
    s.reward_percentiles = vec![pr(0, 0), pr(100, u128::MAX)];
    assert_eq!(s.reward_at(50), Some(170141183460469231731687303715884105727));
    assert_eq!(s.reward_at(100), Some(u128::MAX));
    s.reward_percentiles = vec![pr(0, u128::MAX), pr(u32::MAX, 0)];
    assert_eq!(s.reward_at(u32::MAX - 1), Some(79228162532711081671548469249));
}

#[test]
fn percentile_outside_the_recorded_ones_has_no_reward() {
    let s = sample(10, 100);
    assert_eq!(s.reward_at(24), None);
    assert_eq!(s.reward_at(76), None);
    let mut e = sample(10, 100);
    e.reward_percentiles = vec![];
    assert_eq!(e.reward_at(50), None);
}

#[test]
fn sample_is_duplicated() {
    let s = sample(10, 100);
    assert_eq!(s.duplicate(), s);
}
