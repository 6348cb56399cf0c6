//! A gas price suggestion taken from the prices that recent blocks accepted.
//!
//! The oracle looks at the effective gas prices of the transactions of the
//! last blocks of its sample window, orders them, and suggests the price at
//! a configured percentile (nearest rank). Blocks without transactions add
//! nothing. The last suggestion is kept for the head it was computed at.

use crate::types::BlockRef;
use crate::types::ChainNotification;
use vstd::prelude::*;
use vstd::relations::sorted_by;
use vstd::relations::total_ordering;
use vstd::seq_lib::lemma_sorted_unique;
use vstd::seq_lib::to_multiset_build;
use vstd::seq_lib::to_multiset_insert;

verus! {

/// The number of recent blocks that an oracle samples unless told otherwise.
pub const DEFAULT_SAMPLE_WINDOW: usize = 20;

/// The percentile that an oracle suggests unless told otherwise.
pub const DEFAULT_PERCENTILE: u32 = 60;

/// The effective gas prices of the transactions that one block included.
#[derive(Clone, Debug, PartialEq, Eq)]
pub struct BlockPrices {
    pub block: BlockRef,
    pub prices: Vec<u128>,
}

/// The only way a suggestion fails.
#[derive(Clone, Copy, Debug, PartialEq, Eq, Structural)]
pub enum OracleError {
    /// No block of the sample window included a transaction.
    NoSamplesAvailable,
}

/// The order in which prices are ranked.
pub open spec fn price_leq() -> spec_fn(u128, u128) -> bool {
    |a: u128, b: u128| a <= b
}

/// The price lists of a run of blocks.
pub open spec fn price_lists(blocks: Seq<BlockPrices>) -> Seq<Seq<u128>> {
    blocks.map_values(|b: BlockPrices| b.prices@)
}

/// Where the sample window starts in a run of `len` blocks.
pub open spec fn window_start(len: nat, window: nat) -> int {
    if len > window {
        len - window
    } else {
        0
    }
}

/// Every price of the last `window` blocks of `blocks`, block by block.
pub open spec fn sampled_prices(blocks: Seq<BlockPrices>, window: nat) -> Seq<u128> {
    price_lists(blocks).skip(window_start(blocks.len(), window)).flatten()
}

/// The position, among `n` ordered values, of the one at `percentile`
/// (nearest rank: the smallest position that has at least that share of the
/// values at or below it).
pub open spec fn rank_index(n: int, percentile: int) -> int {
    let rank = (percentile * n + 99) / 100;
    if rank < 1 {
        0
    } else if rank > n {
        n - 1
    } else {
        rank - 1
    }
}

/// The price at `percentile` among `prices`.
pub open spec fn price_at_percentile(prices: Seq<u128>, percentile: int) -> u128 {
    prices.sort_by(price_leq())[rank_index(prices.len() as int, percentile)]
}

/// `<=` is a total order on prices.
pub proof fn lemma_price_leq_is_total()
    ensures
        total_ordering(price_leq()),
{
    let leq = price_leq();
    assert(vstd::relations::reflexive(leq));
    assert(vstd::relations::antisymmetric(leq));
    assert(vstd::relations::transitive(leq));
    assert(vstd::relations::strongly_connected(leq));
}

/// The ordered prices hold each price as often as the input, in ascending
/// order, so the price at a percentile is one of the input's prices.
pub proof fn lemma_price_at_percentile_is_sampled(prices: Seq<u128>, percentile: int)
    requires
        prices.len() > 0,
        0 <= percentile,
    ensures
        prices.sort_by(price_leq()).len() == prices.len(),
        sorted_by(prices.sort_by(price_leq()), price_leq()),
        prices.sort_by(price_leq()).to_multiset() == prices.to_multiset(),
        0 <= rank_index(prices.len() as int, percentile) < prices.len(),
        prices.contains(price_at_percentile(prices, percentile)),
{
    broadcast use vstd::seq_lib::group_to_multiset_ensures;

    lemma_price_leq_is_total();
    prices.lemma_sort_by_ensures(price_leq());
    let sorted = prices.sort_by(price_leq());
    assert(sorted.len() == prices.len()) by {
        assert(sorted.to_multiset().len() == prices.to_multiset().len());
    }
    let n = prices.len() as int;
    assert(0 <= (percentile * n + 99) / 100) by (nonlinear_arith)
        requires
            0 <= percentile,
            0 <= n,
    ;
    let k = rank_index(n, percentile);
    assert(sorted.contains(sorted[k]));
    assert(prices.contains(sorted[k])) by {
        if !prices.contains(sorted[k]) {
            assert(!sorted.contains(sorted[k]));
        }
    }
}

/// Nothing is sampled exactly when every block of the sample window is empty.
pub proof fn lemma_no_samples_iff_all_empty(blocks: Seq<BlockPrices>, window: nat)
    ensures
        sampled_prices(blocks, window).len() == 0 <==> forall|i: int|
            window_start(blocks.len(), window) <= i < blocks.len() ==> (
            #[trigger] blocks[i]).prices@.len() == 0,
{
    let lists = price_lists(blocks).skip(window_start(blocks.len(), window));
    lemma_flatten_empty_iff(lists);
    let start = window_start(blocks.len(), window);
    if sampled_prices(blocks, window).len() == 0 {
        assert forall|i: int| start <= i < blocks.len() implies (#[trigger] blocks[i]).prices@.len()
            == 0 by {
            assert(lists[i - start] == blocks[i].prices@);
        }
    }
    if forall|i: int| start <= i < blocks.len() ==> (#[trigger] blocks[i]).prices@.len() == 0 {
        assert forall|j: int| 0 <= j < lists.len() implies (#[trigger] lists[j]).len() == 0 by {
            assert(lists[j] == blocks[j + start].prices@);
        }
    }
}

proof fn lemma_flatten_empty_iff(lists: Seq<Seq<u128>>)
    ensures
        lists.flatten().len() == 0 <==> forall|j: int|
            0 <= j < lists.len() ==> (#[trigger] lists[j]).len() == 0,
    decreases lists.len(),
{
    if lists.len() == 0 {
    } else {
        let rest = lists.drop_first();
        lemma_flatten_empty_iff(rest);
        assert(lists.flatten() == lists.first() + rest.flatten());
        if lists.flatten().len() == 0 {
            assert forall|j: int| 0 <= j < lists.len() implies (#[trigger] lists[j]).len()
                == 0 by {
                if j > 0 {
                    assert(rest[j - 1] == lists[j]);
                }
            }
        }
        if forall|j: int| 0 <= j < lists.len() ==> (#[trigger] lists[j]).len() == 0 {
            assert(lists.first() == lists[0]);
            assert forall|j: int| 0 <= j < rest.len() implies (#[trigger] rest[j]).len() == 0 by {
                assert(rest[j] == lists[j + 1]);
            }
        }
    }
}

/// Places `x` in an ascending list so that it stays ascending.
fn insert_price(sorted: &mut Vec<u128>, x: u128)
    requires
        sorted_by(old(sorted)@, price_leq()),
    ensures
        sorted_by(final(sorted)@, price_leq()),
        final(sorted)@.to_multiset() == old(sorted)@.to_multiset().insert(x),
{
    let mut pos: usize = sorted.len();
    while pos > 0 && sorted[pos - 1] > x
        invariant
            pos <= sorted.len(),
            sorted@ == old(sorted)@,
            forall|i: int| pos <= i < sorted.len() ==> #[trigger] sorted@[i] > x,
        decreases pos,
    {
        pos = pos - 1;
    }
    sorted.insert(pos, x);
    proof {
        let before = old(sorted)@;
        let after = sorted@;
        to_multiset_insert(before, pos as int, x);
        assert forall|i: int, j: int| 0 <= i < j < after.len() implies #[trigger] price_leq()(
            after[i],
            after[j],
        ) by {
            if j < pos {
                assert(price_leq()(before[i], before[j]));
            } else if j == pos {
                if pos > 0 && i < pos - 1 {
                    assert(price_leq()(before[i], before[pos - 1]));
                }
            } else if i < pos {
                assert(price_leq()(before[i], before[j - 1]));
            } else if i == pos {
                assert(before[j - 1] > x);
            } else {
                assert(price_leq()(before[i - 1], before[j - 1]));
            }
        }
    }
}

/// The prices in ascending order.
pub fn sort_prices(prices: &Vec<u128>) -> (out: Vec<u128>)
    ensures
        out@ == prices@.sort_by(price_leq()),
{
    let mut out: Vec<u128> = Vec::new();
    let mut i: usize = 0;
    proof {
        assert(prices@.take(0) == out@);
    }
    while i < prices.len()
        invariant
            i <= prices.len(),
            sorted_by(out@, price_leq()),
            out@.to_multiset() == prices@.take(i as int).to_multiset(),
        decreases prices.len() - i,
    {
        proof {
            assert(prices@.take(i + 1) == prices@.take(i as int).push(prices@[i as int]));
            to_multiset_build(prices@.take(i as int), prices@[i as int]);
        }
        insert_price(&mut out, prices[i]);
        i = i + 1;
    }
    proof {
        assert(prices@.take(prices.len() as int) == prices@);
        lemma_price_leq_is_total();
        prices@.lemma_sort_by_ensures(price_leq());
        lemma_sorted_unique(out@, prices@.sort_by(price_leq()), price_leq());
    }
    out
}

/// The position of the value at `percentile` among `n` ordered values.
pub fn rank_of(n: usize, percentile: u32) -> (index: usize)
    requires
        n > 0,
    ensures
        index == rank_index(n as int, percentile as int),
        index < n,
{
    proof {
        assert(percentile * n <= 0xffff_ffff * 0xffff_ffff_ffff_ffff) by (nonlinear_arith)
            requires
                0 <= percentile <= 0xffff_ffff,
                0 <= n <= 0xffff_ffff_ffff_ffff,
        ;
    }
    let scaled: u128 = (percentile as u128) * (n as u128) + 99;
    let rank: u128 = scaled / 100;
    if rank < 1 {
        0
    } else if rank > n as u128 {
        n - 1
    } else {
        (rank - 1) as usize
    }
}

/// Every price of the last `window` blocks of `blocks`, block by block.
pub fn collect_prices(blocks: &Vec<BlockPrices>, window: usize) -> (out: Vec<u128>)
    ensures
        out@ == sampled_prices(blocks@, window as nat),
{
    let n = blocks.len();
    let start: usize = if n > window {
        n - window
    } else {
        0
    };
    let ghost lists = price_lists(blocks@);
    let mut out: Vec<u128> = Vec::new();
    let mut i: usize = start;
    proof {
        assert(lists.subrange(start as int, start as int) == Seq::<Seq<u128>>::empty());
    }
    while i < n
        invariant
            start <= i <= n,
            n == blocks@.len(),
            lists == price_lists(blocks@),
            out@ == lists.subrange(start as int, i as int).flatten(),
        decreases n - i,
    {
        let prices = &blocks[i].prices;
        let ghost done = out@;
        let mut j: usize = 0;
        while j < prices.len()
            invariant
                j <= prices.len(),
                out@ == done + prices@.take(j as int),
            decreases prices.len() - j,
        {
            out.push(prices[j]);
            proof {
                assert(prices@.take(j + 1) == prices@.take(j as int).push(prices@[j as int]));
            }
            j = j + 1;
        }
        proof {
            assert(prices@.take(j as int) == prices@);
            let before = lists.subrange(start as int, i as int);
            assert(lists[i as int] == prices@);
            before.lemma_flatten_push(lists[i as int]);
            assert(lists.subrange(start as int, i + 1) == lists.subrange(
                start as int,
                i as int,
            ).push(lists[i as int]));
        }
        i = i + 1;
    }
    proof {
        assert(lists.subrange(start as int, n as int) == lists.skip(start as int));
    }
    out
}

/// Suggests gas prices and remembers the last suggestion.
pub struct GasPriceOracle {
    sample_window: usize,
    percentile: u32,
    cached: Option<(BlockRef, u128)>,
}

impl GasPriceOracle {
    /// The number of recent blocks that are sampled.
    pub closed spec fn sample_window(&self) -> nat {
        self.sample_window as nat
    }

    /// The percentile that is suggested.
    pub closed spec fn percentile(&self) -> int {
        self.percentile as int
    }

    /// The last suggestion and the head it was computed at.
    pub closed spec fn cached(&self) -> Option<(BlockRef, u128)> {
        self.cached
    }

    /// An oracle that samples the last `sample_window` blocks and suggests the
    /// price at `percentile`.
    pub fn new(sample_window: usize, percentile: u32) -> (out: GasPriceOracle)
        ensures
            out.sample_window() == sample_window,
            out.percentile() == percentile,
            out.cached().is_none(),
    {
        GasPriceOracle { sample_window, percentile, cached: None }
    }

    /// An oracle with the default sample window and percentile.
    pub fn with_defaults() -> (out: GasPriceOracle)
        ensures
            out.sample_window() == DEFAULT_SAMPLE_WINDOW,
            out.percentile() == DEFAULT_PERCENTILE,
            out.cached().is_none(),
    {
        GasPriceOracle::new(DEFAULT_SAMPLE_WINDOW, DEFAULT_PERCENTILE)
    }

    /// The number of recent blocks that a suggestion looks at.
    pub fn window_len(&self) -> (n: usize)
        ensures
            n == self.sample_window(),
    {
        self.sample_window
    }

    /// The suggestion that was computed at `head`, if it is the last one.
    pub fn cached_price(&self, head: &BlockRef) -> (out: Option<u128>)
        ensures
            out == match self.cached() {
                Some((at, price)) => if at == *head {
                    Some(price)
                } else {
                    None
                },
                None => None,
            },
    {
        match self.cached {
            Some((at, price)) => {
                if at == *head {
                    Some(price)
                } else {
                    None
                }
            },
            None => None,
        }
    }

    /// Forgets the last suggestion where the notification moves the head.
    pub fn on_notification(&mut self, notification: &ChainNotification)
        ensures
            final(self).sample_window() == old(self).sample_window(),
            final(self).percentile() == old(self).percentile(),
            final(self).cached() == if notification@.adopted().len() > 0
                || notification@.discarded().len() > 0 {
                None
            } else {
                old(self).cached()
            },
    {
        let moves = match notification {
            ChainNotification::Commit { new } => new.len() > 0,
            ChainNotification::Reorg { old, new } => old.len() > 0 || new.len() > 0,
        };
        if moves {
            self.cached = None;
        }
    }

    /// The price at the configured percentile among the prices of the last
    /// blocks of the sample window; `NoSamplesAvailable` where those blocks
    /// hold no transaction. `blocks` are the most recent canonical blocks,
    /// oldest first, ending at `head`. A suggestion already computed at
    /// `head` is returned as it is; a new one is remembered for `head`.
    pub fn suggest_price(&mut self, head: BlockRef, blocks: &Vec<BlockPrices>) -> (out: Result<
        u128,
        OracleError,
    >)
        ensures
            final(self).sample_window() == old(self).sample_window(),
            final(self).percentile() == old(self).percentile(),
            out == suggestion(
                old(self).cached(),
                head,
                sampled_prices(blocks@, old(self).sample_window()),
                old(self).percentile(),
            ),
            final(self).cached() == match out {
                Ok(price) => Some((head, price)),
                Err(_) => old(self).cached(),
            },
    {
        match self.cached_price(&head) {
            Some(price) => {
                return Ok(price);
            },
            None => {},
        }
        let prices = collect_prices(blocks, self.sample_window);
        if prices.len() == 0 {
            return Err(OracleError::NoSamplesAvailable);
        }
        let sorted = sort_prices(&prices);
        proof {
            lemma_price_at_percentile_is_sampled(prices@, self.percentile as int);
        }
        let index = rank_of(prices.len(), self.percentile);
        let price = sorted[index];
        self.cached = Some((head, price));
        Ok(price)
    }
}

/// What the oracle answers at `head`: the remembered suggestion where it was
/// computed at `head`; else the price at `percentile` among `prices`, or
/// `NoSamplesAvailable` where there are none.
pub open spec fn suggestion(
    cached: Option<(BlockRef, u128)>,
    head: BlockRef,
    prices: Seq<u128>,
    percentile: int,
) -> Result<u128, OracleError> {
    if cached.is_some() && cached.unwrap().0 == head {
        Ok(cached.unwrap().1)
    } else if prices.len() == 0 {
        Err(OracleError::NoSamplesAvailable)
    } else {
        Ok(price_at_percentile(prices, percentile))
    }
}

} // verus!
