use chain_access::gas_price::collect_prices;
use chain_access::gas_price::rank_of;
use chain_access::gas_price::sort_prices;
use chain_access::gas_price::BlockPrices;
use chain_access::gas_price::GasPriceOracle;
use chain_access::gas_price::OracleError;
use chain_access::gas_price::DEFAULT_PERCENTILE;
use chain_access::gas_price::DEFAULT_SAMPLE_WINDOW;
use chain_access::types::BlockRef;
use chain_access::types::ChainNotification;
use chain_access::types::B256;

const GWEI: u128 = 1_000_000_000;

fn gblock(hash: u128, number: u64, parent: u128) -> BlockRef {
    BlockRef {
        hash: B256 { hi: 0, lo: hash },
        number,
        parent_hash: B256 { hi: 0, lo: parent },
    }
}

fn priced(number: u64, prices: Vec<u128>) -> BlockPrices {
    BlockPrices { block: gblock(number as u128, number, number as u128 - 1), prices }
}

#[test]
fn sixtieth_percentile_of_one_to_five_gwei_is_three_gwei() {
    let mut o = GasPriceOracle::new(20, 60);
    let blocks = vec![priced(1, vec![GWEI, 2 * GWEI, 3 * GWEI, 4 * GWEI, 5 * GWEI])];
    assert_eq!(o.suggest_price(gblock(1, 1, 0), &blocks), Ok(3 * GWEI));
}

#[test]
fn prices_are_ordered_across_blocks_before_the_percentile_is_taken() {
    let mut o = GasPriceOracle::new(20, 60);
    let blocks = vec![
        priced(1, vec![5 * GWEI, GWEI]),
        priced(2, vec![]),
        priced(3, vec![4 * GWEI, 2 * GWEI, 3 * GWEI]),
    ];
    assert_eq!(o.suggest_price(gblock(3, 3, 2), &blocks), Ok(3 * GWEI));
}

#[test]
fn empty_blocks_are_skipped_and_add_no_zero_price() {
    let mut o = GasPriceOracle::new(20, 0);
    let blocks = vec![priced(1, vec![]), priced(2, vec![7 * GWEI]), priced(3, vec![])];
    assert_eq!(o.suggest_price(gblock(3, 3, 2), &blocks), Ok(7 * GWEI));
}

#[test]
fn window_of_empty_blocks_has_no_samples() {
    let mut o = GasPriceOracle::new(20, 60);
    assert_eq!(
        o.suggest_price(gblock(2, 2, 1), &vec![priced(1, vec![]), priced(2, vec![])]),
        Err(OracleError::NoSamplesAvailable)
    );
    assert_eq!(o.suggest_price(gblock(2, 2, 1), &vec![]), Err(OracleError::NoSamplesAvailable));
    assert_eq!(o.cached_price(&gblock(2, 2, 1)), None);
}

#[test]
fn only_the_last_blocks_of_the_sample_window_count() {
    let mut o = GasPriceOracle::new(2, 100);
    let blocks = vec![priced(1, vec![900]), priced(2, vec![10, 20]), priced(3, vec![30])];
    assert_eq!(o.suggest_price(gblock(3, 3, 2), &blocks), Ok(30));
    assert_eq!(collect_prices(&blocks, 2), vec![10, 20, 30]);
    assert_eq!(collect_prices(&blocks, 3), vec![900, 10, 20, 30]);
    assert_eq!(collect_prices(&blocks, 9), vec![900, 10, 20, 30]);
    assert_eq!(collect_prices(&blocks, 0), vec![]);
    // a window of no blocks samples nothing
    let mut none = GasPriceOracle::new(0, 50);
    assert_eq!(none.suggest_price(gblock(3, 3, 2), &blocks), Err(OracleError::NoSamplesAvailable));
}

#[test]
fn suggestion_is_kept_for_the_head_it_was_computed_at() {
    let mut o = GasPriceOracle::new(20, 60);
    let head = gblock(1, 1, 0);
    assert_eq!(o.cached_price(&head), None);
    assert_eq!(o.suggest_price(head, &vec![priced(1, vec![1, 2, 3, 4, 5])]), Ok(3));
    assert_eq!(o.cached_price(&head), Some(3));
    assert_eq!(o.cached_price(&gblock(2, 2, 1)), None);
    // at the same head the kept suggestion is the answer, whatever is handed in
    assert_eq!(o.suggest_price(head, &vec![priced(1, vec![100])]), Ok(3));
    // at another head it is computed anew
    assert_eq!(o.suggest_price(gblock(2, 2, 1), &vec![priced(2, vec![100])]), Ok(100));
    assert_eq!(o.cached_price(&head), None);
}

#[test]
fn change_of_the_head_invalidates_the_suggestion() {
    let head = gblock(1, 1, 0);
    let mut o = GasPriceOracle::new(20, 60);
    o.suggest_price(head, &vec![priced(1, vec![5])]).unwrap();
    o.on_notification(&ChainNotification::Commit { new: vec![gblock(2, 2, 1)] });
    assert_eq!(o.cached_price(&head), None);
    o.suggest_price(head, &vec![priced(1, vec![5])]).unwrap();
    o.on_notification(&ChainNotification::Reorg { old: vec![head], new: vec![gblock(11, 1, 0)] });
    assert_eq!(o.cached_price(&head), None);
    // a notification without blocks moves no head
    o.suggest_price(head, &vec![priced(1, vec![5])]).unwrap();
    o.on_notification(&ChainNotification::Commit { new: vec![] });
    assert_eq!(o.cached_price(&head), Some(5));
}

#[test]
fn nearest_rank_positions() {
    assert_eq!(rank_of(5, 60), 2);
    assert_eq!(rank_of(5, 0), 0);
    assert_eq!(rank_of(5, 100), 4);
    assert_eq!(rank_of(5, 50), 2);
    assert_eq!(rank_of(4, 50), 1);
    assert_eq!(rank_of(5, 20), 0);
    assert_eq!(rank_of(5, 21), 1);
    assert_eq!(rank_of(5, 200), 4);
    assert_eq!(rank_of(1, 60), 0);
    assert_eq!(rank_of(usize::MAX, u32::MAX), usize::MAX - 1);
}

#[test]
fn prices_are_sorted_ascending() {
    assert_eq!(sort_prices(&vec![]), vec![]);
    assert_eq!(sort_prices(&vec![3, 1, 2, 1, u128::MAX, 0]), vec![0, 1, 1, 2, 3, u128::MAX]);
}

#[test]
fn defaults_sample_twenty_blocks_at_the_sixtieth_percentile() {
    assert_eq!(DEFAULT_SAMPLE_WINDOW, 20);
    assert_eq!(DEFAULT_PERCENTILE, 60);
    let mut o = GasPriceOracle::with_defaults();
    assert_eq!(o.window_len(), 20);
    assert_eq!(o.suggest_price(gblock(1, 1, 0), &vec![priced(1, vec![1, 2, 3, 4, 5])]), Ok(3));
}
