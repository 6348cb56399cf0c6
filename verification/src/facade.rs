//! The place where callers meet the components.
//!
//! The facade owns the tracker, the state cache, the fee history, the gas
//! price oracle and the transaction pool, and hands each request to the
//! component that answers it. It keeps the state cache in step with the
//! tracker: whatever the cache holds or fetches belongs to a block of the
//! canonical chain.

use crate::fee_history::after_notification;
use crate::fee_history::covers;
use crate::fee_history::sample_views;
use crate::fee_history::FeeHistoryCache;
use crate::fee_history::FeeHistoryError;
use crate::fee_history::FeeSample;
use crate::fee_history::FeeSampleView;
use crate::gas_price::sampled_prices;
use crate::gas_price::suggestion;
use crate::gas_price::BlockPrices;
use crate::gas_price::GasPriceOracle;
use crate::gas_price::OracleError;
use crate::pool::entry_txs;
use crate::pool::tx_views;
use crate::pool::ChainUpdate;
use crate::pool::PoolChanges;
use crate::pool::PooledTransaction;
use crate::pool::TransactionPool;
use crate::pool_model::PoolConfig;
use crate::pool_model::PoolView;
use crate::pool_model::RejectReason;
use crate::seq_lemmas::lemma_filter_keeps_no_duplicates;
use crate::state_cache::cached_value;
use crate::state_cache::coherent;
use crate::state_cache::evicted;
use crate::state_cache::fetch_on_kept_block;
use crate::state_cache::inserted;
use crate::state_cache::lemma_eviction_keeps_coherence;
use crate::state_cache::lemma_use_keeps_coherence;
use crate::state_cache::lookup_outcome;
use crate::state_cache::other_fetches;
use crate::state_cache::touched;
use crate::state_cache::CacheEntry;
use crate::state_cache::Lookup;
use crate::state_cache::PendingFetch;
use crate::state_cache::StateCache;
use crate::state_cache::StateKey;
use crate::subscription::answer_view;
use crate::subscription::HubView;
use crate::subscription::SubscriptionError;
use crate::tracker::is_update_result;
use crate::tracker::newest;
use crate::tracker::result_view;
use crate::tracker::CanonicalChainTracker;
use crate::tracker::TrackerError;
use crate::types::lemma_kept_block_stays;
use crate::types::linked;
use crate::types::B256;
use crate::types::BlockRef;
use crate::types::ChainNotification;
use vstd::prelude::*;

verus! {

/// The options of a facade.
#[derive(Clone, Copy, Debug, PartialEq, Eq, Structural)]
pub struct Config {
    /// The number of entries that the state cache holds at most.
    pub state_cache_capacity: usize,
    /// The number of fee samples that the fee history retains.
    pub fee_history_window: usize,
    /// The number of recent blocks that the gas price oracle samples.
    pub gas_price_sample_window: usize,
    /// The percentile that the gas price oracle suggests.
    pub gas_price_percentile: u32,
    /// The limits of the transaction pool.
    pub pool: PoolConfig,
    /// The deepest reorg that the tracker supports.
    pub max_reorg_depth: usize,
    /// The number of notifications that the queue of a subscriber holds.
    pub subscriber_queue_capacity: usize,
}

/// What a reader of account or storage state is told.
#[derive(Clone, Copy, Debug, PartialEq, Eq, Structural)]
pub enum StateAnswer {
    /// The value is cached.
    Hit { value: B256 },
    /// The reader fetches the value and hands it in.
    Fetch,
    /// Another reader fetches the value; this one waits for it.
    Wait,
    /// The block is not among the retained blocks of the canonical chain:
    /// the reader goes to the provider, and nothing is cached.
    Bypass,
}

/// The answer that stands for what the cache tells a reader.
pub open spec fn answer_of(found: Lookup) -> StateAnswer {
    match found {
        Lookup::Hit { value } => StateAnswer::Hit { value },
        Lookup::Fetch => StateAnswer::Fetch,
        Lookup::Wait => StateAnswer::Wait,
    }
}

/// Every fetch is one of a block of `chain`.
pub open spec fn fetches_on_chain(in_flight: Seq<PendingFetch>, chain: Seq<BlockRef>) -> bool {
    forall|i: int| 0 <= i < in_flight.len() ==> chain.contains((#[trigger] in_flight[i]).block)
}

/// The components, composed.
pub struct QueryFacade {
    tracker: CanonicalChainTracker,
    state: StateCache,
    fees: FeeHistoryCache,
    oracle: GasPriceOracle,
    pool: TransactionPool,
}

impl QueryFacade {
    /// The canonical chain since the facade was made.
    pub closed spec fn chain(&self) -> Seq<BlockRef> {
        self.tracker.history()
    }

    /// The newest blocks of the canonical chain, which the tracker retains.
    pub closed spec fn retained(&self) -> Seq<BlockRef> {
        self.tracker.retained()
    }

    /// The subscribers and what was published to them.
    pub closed spec fn hub(&self) -> HubView {
        self.tracker.hub()
    }

    /// The entries of the state cache.
    pub closed spec fn cache_entries(&self) -> Seq<CacheEntry> {
        self.state.entries()
    }

    /// The reads of state that are being fetched.
    pub closed spec fn in_flight(&self) -> Seq<PendingFetch> {
        self.state.in_flight()
    }

    /// The number of entries that the state cache holds at most.
    pub closed spec fn cache_capacity(&self) -> nat {
        self.state.capacity()
    }

    /// The fee samples of the fee history.
    pub closed spec fn fee_samples(&self) -> Seq<FeeSampleView> {
        self.fees@
    }

    /// The number of fee samples that the fee history retains.
    pub closed spec fn fee_window(&self) -> nat {
        self.fees.window()
    }

    /// The last suggestion of the oracle and the head it was computed at.
    pub closed spec fn cached_price(&self) -> Option<(BlockRef, u128)> {
        self.oracle.cached()
    }

    /// The number of blocks that the oracle samples.
    pub closed spec fn sample_window(&self) -> nat {
        self.oracle.sample_window()
    }

    /// The percentile that the oracle suggests.
    pub closed spec fn percentile(&self) -> int {
        self.oracle.percentile()
    }

    /// The transaction pool.
    pub closed spec fn pool(&self) -> PoolView {
        self.pool@
    }

    /// Every component is well formed, and whatever the state cache holds or
    /// fetches belongs to a block of the canonical chain.
    pub closed spec fn wf(&self) -> bool {
        &&& self.tracker.wf()
        &&& self.state.wf()
        &&& self.fees.wf()
        &&& self.pool@.wf()
        &&& coherent(self.state.entries(), self.tracker.history())
        &&& fetches_on_chain(self.state.in_flight(), self.tracker.history())
    }

    /// A value read from the state cache is one of a block of the canonical
    /// chain.
    pub proof fn lemma_cached_values_are_canonical(&self, block: BlockRef, key: StateKey)
        requires
            self.wf(),
            cached_value(self.cache_entries(), block, key).is_some(),
        ensures
            self.chain().contains(block),
    {
        let i = crate::state_cache::slot_index(self.state.entries(), block, key);
        assert(self.tracker.history().contains(self.state.entries()[i].valid_at_block));
    }

    /// A facade on the chain that ends at `head`, for a next block with the
    /// base fee `base_fee`.
    pub fn new(head: BlockRef, base_fee: u64, config: Config) -> (out: QueryFacade)
        ensures
            out.wf(),
            out.chain() == seq![head],
            out.retained() == seq![head],
            out.cache_entries().len() == 0,
            out.in_flight().len() == 0,
            out.cache_capacity() == config.state_cache_capacity,
            out.fee_samples().len() == 0,
            out.fee_window() == config.fee_history_window,
            out.cached_price().is_none(),
            out.sample_window() == config.gas_price_sample_window,
            out.percentile() == config.gas_price_percentile,
            out.pool().entries.len() == 0,
            out.pool().base_fee == base_fee,
            out.pool().config == config.pool,
            out.hub().subscribers.len() == 0,
            out.hub().capacity == config.subscriber_queue_capacity,
    {
        QueryFacade {
            tracker: CanonicalChainTracker::new(
                head,
                config.max_reorg_depth,
                config.subscriber_queue_capacity,
            ),
            state: StateCache::new(config.state_cache_capacity),
            fees: FeeHistoryCache::new(config.fee_history_window),
            oracle: GasPriceOracle::new(config.gas_price_sample_window, config.gas_price_percentile),
            pool: TransactionPool::new(config.pool, base_fee),
        }
    }

    /// A facade on the chain whose newest blocks are `chain`, oldest first,
    /// for a next block with the base fee `base_fee`; `None` where `chain` is
    /// empty or one of its blocks does not follow the block before it.
    pub fn with_chain(chain: &Vec<BlockRef>, base_fee: u64, config: Config) -> (out: Option<
        QueryFacade,
    >)
        ensures
            out.is_some() == (chain@.len() > 0 && linked(chain@)),
            out matches Some(facade) ==> {
                &&& facade.wf()
                &&& facade.chain() == chain@
                &&& facade.retained() == newest(chain@, config.max_reorg_depth as nat + 1)
                &&& facade.cache_entries().len() == 0
                &&& facade.in_flight().len() == 0
                &&& facade.cache_capacity() == config.state_cache_capacity
                &&& facade.fee_samples().len() == 0
                &&& facade.fee_window() == config.fee_history_window
                &&& facade.cached_price().is_none()
                &&& facade.sample_window() == config.gas_price_sample_window
                &&& facade.percentile() == config.gas_price_percentile
                &&& facade.pool().entries.len() == 0
                &&& facade.pool().base_fee == base_fee
                &&& facade.pool().config == config.pool
                &&& facade.hub().subscribers.len() == 0
                &&& facade.hub().capacity == config.subscriber_queue_capacity
            },
    {
        match CanonicalChainTracker::with_chain(
            chain,
            config.max_reorg_depth,
            config.subscriber_queue_capacity,
        ) {
            None => None,
            Some(tracker) => Some(
                QueryFacade {
                    tracker,
                    state: StateCache::new(config.state_cache_capacity),
                    fees: FeeHistoryCache::new(config.fee_history_window),
                    oracle: GasPriceOracle::new(
                        config.gas_price_sample_window,
                        config.gas_price_percentile,
                    ),
                    pool: TransactionPool::new(config.pool, base_fee),
                },
            ),
        }
    }

    /// The newest block of the canonical chain.
    pub fn head(&self) -> (out: BlockRef)
        requires
            self.wf(),
        ensures
            out == self.chain().last(),
    {
        self.tracker.head()
    }

    /// Adopts a segment of the chain that the node made canonical.
    ///
    /// The tracker finds the fork point and publishes the notification of the
    /// change; the state cache drops what belongs to discarded blocks, and the
    /// oracle forgets its suggestion. The fee history and the pool follow
    /// when they are handed the data of the adopted blocks. On an error
    /// nothing changes.
    pub fn advance(&mut self, segment: &Vec<BlockRef>) -> (out: Result<
        ChainNotification,
        TrackerError,
    >)
        requires
            old(self).wf(),
        ensures
            final(self).wf(),
            is_update_result(old(self).retained(), segment@, result_view(out)),
            final(self).cache_capacity() == old(self).cache_capacity(),
            final(self).fee_samples() == old(self).fee_samples(),
            final(self).fee_window() == old(self).fee_window(),
            final(self).pool() == old(self).pool(),
            final(self).sample_window() == old(self).sample_window(),
            final(self).percentile() == old(self).percentile(),
            out matches Ok(n) ==> {
                &&& n@.applies_to(old(self).chain())
                &&& final(self).chain() == n@.apply(old(self).chain())
                &&& final(self).hub() == old(self).hub().published(n@)
                &&& final(self).cache_entries() == evicted(old(self).cache_entries(), n@)
                &&& final(self).in_flight() == old(self).in_flight().filter(
                    fetch_on_kept_block(n@.discarded()),
                )
                &&& final(self).cached_price().is_none()
            },
            out is Err ==> {
                &&& final(self).chain() == old(self).chain()
                &&& final(self).retained() == old(self).retained()
                &&& final(self).hub() == old(self).hub()
                &&& final(self).cache_entries() == old(self).cache_entries()
                &&& final(self).in_flight() == old(self).in_flight()
                &&& final(self).cached_price() == old(self).cached_price()
            },
    {
        let out = self.tracker.update(segment);
        match &out {
            Ok(n) => {
                proof {
                    let chain = old(self).tracker.history();
                    let fetches = old(self).state.in_flight();
                    let pred = fetch_on_kept_block(n@.discarded());
                    lemma_eviction_keeps_coherence(old(self).state.entries(), chain, n@);
                    lemma_filter_keeps_no_duplicates(fetches, pred);
                    let kept = fetches.filter(pred);
                    assert forall|i: int| 0 <= i < kept.len() implies n@.apply(chain).contains(
                        (#[trigger] kept[i]).block,
                    ) by {
                        assert(fetches.contains(kept[i]));
                        let m = choose|m: int| 0 <= m < fetches.len() && fetches[m] == kept[i];
                        assert(chain.contains(fetches[m].block));
                        assert(pred(kept[i]));
                        lemma_kept_block_stays(n@, chain, kept[i].block);
                    }
                }
                self.state.on_notification(n);
                self.oracle.on_notification(n);
            },
            Err(_) => {},
        }
        out
    }

    /// Hands the fee history the samples of the blocks that a notification
    /// adopted, in chain order.
    pub fn record_fees(&mut self, notification: &ChainNotification, samples: &Vec<FeeSample>)
        requires
            old(self).wf(),
        ensures
            final(self).wf(),
            final(self).chain() == old(self).chain(),
            final(self).retained() == old(self).retained(),
            final(self).hub() == old(self).hub(),
            final(self).cache_entries() == old(self).cache_entries(),
            final(self).in_flight() == old(self).in_flight(),
            final(self).cache_capacity() == old(self).cache_capacity(),
            final(self).cached_price() == old(self).cached_price(),
            final(self).sample_window() == old(self).sample_window(),
            final(self).percentile() == old(self).percentile(),
            final(self).pool() == old(self).pool(),
            final(self).fee_window() == old(self).fee_window(),
            final(self).fee_samples() == after_notification(
                old(self).fee_samples(),
                old(self).fee_window(),
                notification@,
                sample_views(samples@),
            ),
    {
        self.fees.on_notification(notification, samples);
    }

    /// Hands the pool what a change of the canonical chain means to it.
    pub fn follow_pool(&mut self, update: &ChainUpdate) -> (out: PoolChanges)
        requires
            old(self).wf(),
        ensures
            final(self).wf(),
            final(self).chain() == old(self).chain(),
            final(self).retained() == old(self).retained(),
            final(self).hub() == old(self).hub(),
            final(self).cache_entries() == old(self).cache_entries(),
            final(self).in_flight() == old(self).in_flight(),
            final(self).cache_capacity() == old(self).cache_capacity(),
            final(self).cached_price() == old(self).cached_price(),
            final(self).sample_window() == old(self).sample_window(),
            final(self).percentile() == old(self).percentile(),
            final(self).fee_samples() == old(self).fee_samples(),
            final(self).fee_window() == old(self).fee_window(),
            final(self).pool() == old(self).pool().after_change(update@),
            out.included@ == old(self).pool().included(update@),
            out.discarded@ == old(self).pool().discarded(update@),
            out.requeued@ == old(self).pool().requeued(update@),
    {
        self.pool.on_canonical_change(update)
    }

    /// Answers a read of `key` at `block`.
    ///
    /// A block that is not among the retained blocks of the canonical chain
    /// is not served from the cache. For the others the reader is handed the
    /// cached value, or told to fetch the value, or to wait for the reader
    /// that fetches it.
    pub fn account_state(&mut self, block: &BlockRef, key: &StateKey) -> (out: StateAnswer)
        requires
            old(self).wf(),
        ensures
            final(self).wf(),
            final(self).chain() == old(self).chain(),
            final(self).retained() == old(self).retained(),
            final(self).hub() == old(self).hub(),
            final(self).cache_capacity() == old(self).cache_capacity(),
            final(self).cached_price() == old(self).cached_price(),
            final(self).sample_window() == old(self).sample_window(),
            final(self).percentile() == old(self).percentile(),
            final(self).fee_samples() == old(self).fee_samples(),
            final(self).fee_window() == old(self).fee_window(),
            final(self).pool() == old(self).pool(),
            out is Hit ==> old(self).chain().contains(*block),
            !old(self).retained().contains(*block) ==> {
                &&& out == StateAnswer::Bypass
                &&& final(self).cache_entries() == old(self).cache_entries()
                &&& final(self).in_flight() == old(self).in_flight()
            },
            old(self).retained().contains(*block) ==> {
                &&& out == answer_of(
                    lookup_outcome(old(self).cache_entries(), old(self).in_flight(), *block, *key),
                )
                &&& final(self).cache_entries() == touched(old(self).cache_entries(), *block, *key)
                &&& final(self).in_flight() == if out == StateAnswer::Fetch {
                    old(self).in_flight().push(PendingFetch { block: *block, key: *key })
                } else {
                    old(self).in_flight()
                }
            },
    {
        if !self.tracker.is_canonical(block) {
            return StateAnswer::Bypass;
        }
        proof {
            lemma_use_keeps_coherence(
                self.state.entries(),
                self.state.capacity(),
                self.tracker.history(),
                CacheEntry { key: *key, value: B256 { hi: 0, lo: 0 }, valid_at_block: *block },
            );
        }
        match self.state.lookup(block, key) {
            Lookup::Hit { value } => StateAnswer::Hit { value },
            Lookup::Fetch => StateAnswer::Fetch,
            Lookup::Wait => StateAnswer::Wait,
        }
    }

    /// Takes the value that a fetch of `key` at `block` brought. It is cached
    /// where the fetch is still awaited; it is dropped where the block was
    /// discarded meanwhile. Says whether it was cached.
    pub fn fulfill_state(&mut self, block: BlockRef, key: StateKey, value: B256) -> (out: bool)
        requires
            old(self).wf(),
        ensures
            final(self).wf(),
            final(self).chain() == old(self).chain(),
            final(self).retained() == old(self).retained(),
            final(self).hub() == old(self).hub(),
            final(self).cache_capacity() == old(self).cache_capacity(),
            final(self).cached_price() == old(self).cached_price(),
            final(self).sample_window() == old(self).sample_window(),
            final(self).percentile() == old(self).percentile(),
            final(self).fee_samples() == old(self).fee_samples(),
            final(self).fee_window() == old(self).fee_window(),
            final(self).pool() == old(self).pool(),
            out == old(self).in_flight().contains(PendingFetch { block, key }),
            final(self).in_flight() == old(self).in_flight().filter(
                other_fetches(PendingFetch { block, key }),
            ),
            final(self).cache_entries() == if out {
                inserted(
                    old(self).cache_entries(),
                    old(self).cache_capacity(),
                    CacheEntry { key, value, valid_at_block: block },
                )
            } else {
                old(self).cache_entries()
            },
    {
        proof {
            let chain = self.tracker.history();
            let fetches = self.state.in_flight();
            let p = PendingFetch { block, key };
            lemma_use_keeps_coherence(
                self.state.entries(),
                self.state.capacity(),
                chain,
                CacheEntry { key, value, valid_at_block: block },
            );
            lemma_filter_keeps_no_duplicates(fetches, other_fetches(p));
            let kept = fetches.filter(other_fetches(p));
            assert forall|i: int| 0 <= i < kept.len() implies chain.contains(
                (#[trigger] kept[i]).block,
            ) by {
                assert(fetches.contains(kept[i]));
                let m = choose|m: int| 0 <= m < fetches.len() && fetches[m] == kept[i];
                assert(chain.contains(fetches[m].block));
            }
            if fetches.contains(p) {
                let m = choose|m: int| 0 <= m < fetches.len() && fetches[m] == p;
                assert(chain.contains(fetches[m].block));
            }
        }
        self.state.fulfill(block, key, value)
    }

    /// Gives the fetch of `key` at `block` up, because the provider failed:
    /// the next reader of that state is told to fetch again.
    pub fn abandon_state(&mut self, block: BlockRef, key: StateKey)
        requires
            old(self).wf(),
        ensures
            final(self).wf(),
            final(self).chain() == old(self).chain(),
            final(self).retained() == old(self).retained(),
            final(self).hub() == old(self).hub(),
            final(self).cache_capacity() == old(self).cache_capacity(),
            final(self).cached_price() == old(self).cached_price(),
            final(self).sample_window() == old(self).sample_window(),
            final(self).percentile() == old(self).percentile(),
            final(self).fee_samples() == old(self).fee_samples(),
            final(self).fee_window() == old(self).fee_window(),
            final(self).pool() == old(self).pool(),
            final(self).cache_entries() == old(self).cache_entries(),
            final(self).in_flight() == old(self).in_flight().filter(
                other_fetches(PendingFetch { block, key }),
            ),
    {
        proof {
            let chain = self.tracker.history();
            let fetches = self.state.in_flight();
            let p = PendingFetch { block, key };
            lemma_filter_keeps_no_duplicates(fetches, other_fetches(p));
            let kept = fetches.filter(other_fetches(p));
            assert forall|i: int| 0 <= i < kept.len() implies chain.contains(
                (#[trigger] kept[i]).block,
            ) by {
                assert(fetches.contains(kept[i]));
                let m = choose|m: int| 0 <= m < fetches.len() && fetches[m] == kept[i];
                assert(chain.contains(fetches[m].block));
            }
        }
        self.state.abandon(block, key);
    }

    /// The number of recent blocks whose prices a suggestion needs.
    pub fn price_window(&self) -> (n: usize)
        ensures
            n == self.sample_window(),
    {
        self.oracle.window_len()
    }

    /// The suggestion that the oracle computed at the present head, if it
    /// did.
    pub fn cached_gas_price(&self) -> (out: Option<u128>)
        requires
            self.wf(),
        ensures
            out == match self.cached_price() {
                Some((at, price)) => if at == self.chain().last() {
                    Some(price)
                } else {
                    None
                },
                None => None,
            },
    {
        let head = self.tracker.head();
        self.oracle.cached_price(&head)
    }

    /// Suggests a gas price at the present head, from the prices of the most
    /// recent canonical blocks, oldest first.
    pub fn suggest_gas_price(&mut self, blocks: &Vec<BlockPrices>) -> (out: Result<
        u128,
        OracleError,
    >)
        requires
            old(self).wf(),
        ensures
            final(self).wf(),
            final(self).chain() == old(self).chain(),
            final(self).retained() == old(self).retained(),
            final(self).hub() == old(self).hub(),
            final(self).cache_entries() == old(self).cache_entries(),
            final(self).in_flight() == old(self).in_flight(),
            final(self).cache_capacity() == old(self).cache_capacity(),
            final(self).sample_window() == old(self).sample_window(),
            final(self).percentile() == old(self).percentile(),
            final(self).fee_samples() == old(self).fee_samples(),
            final(self).fee_window() == old(self).fee_window(),
            final(self).pool() == old(self).pool(),
            out == suggestion(
                old(self).cached_price(),
                old(self).chain().last(),
                sampled_prices(blocks@, old(self).sample_window()),
                old(self).percentile(),
            ),
            final(self).cached_price() == match out {
                Ok(price) => Some((old(self).chain().last(), price)),
                Err(_) => old(self).cached_price(),
            },
    {
        let head = self.tracker.head();
        self.oracle.suggest_price(head, blocks)
    }

    /// The fee samples of the `block_count` blocks from `first_block` on.
    pub fn fee_history(&self, first_block: u64, block_count: u64) -> (out: Result<
        Vec<FeeSample>,
        FeeHistoryError,
    >)
        requires
            self.wf(),
        ensures
            out.is_ok() == covers(self.fee_samples(), first_block as int, block_count as int),
            out matches Ok(found) ==> {
                &&& found@.len() == block_count
                &&& forall|k: int|
                    0 <= k < block_count ==> (#[trigger] found@[k])@.block_number == first_block + k
                        && self.fee_samples().contains(found@[k]@)
            },
    {
        self.fees.range_query(first_block, block_count)
    }

    /// Submits a transaction of a sender whose account has `nonce` and
    /// `balance` at the head.
    pub fn submit(&mut self, tx: PooledTransaction, nonce: u64, balance: u128) -> (out: Result<
        B256,
        RejectReason,
    >)
        requires
            old(self).wf(),
        ensures
            final(self).wf(),
            final(self).chain() == old(self).chain(),
            final(self).retained() == old(self).retained(),
            final(self).hub() == old(self).hub(),
            final(self).cache_entries() == old(self).cache_entries(),
            final(self).in_flight() == old(self).in_flight(),
            final(self).cache_capacity() == old(self).cache_capacity(),
            final(self).cached_price() == old(self).cached_price(),
            final(self).sample_window() == old(self).sample_window(),
            final(self).percentile() == old(self).percentile(),
            final(self).fee_samples() == old(self).fee_samples(),
            final(self).fee_window() == old(self).fee_window(),
            final(self).pool() == old(self).pool().submitted(tx@, nonce, balance),
            out == match old(self).pool().admission(tx@, nonce, balance, true) {
                Some(reason) => Err::<B256, RejectReason>(reason),
                None => Ok::<B256, RejectReason>(tx.hash),
            },
    {
        self.pool.submit(tx, nonce, balance)
    }

    /// The ranked transactions of the pool, best first.
    pub fn pending_transactions(&self) -> (out: Vec<PooledTransaction>)
        requires
            self.wf(),
        ensures
            tx_views(out@) == entry_txs(self.pool().ranked()),
    {
        self.pool.pending()
    }

    /// Adds a subscriber to the chain notifications and returns its
    /// identifier; `None` where the identifiers are used up.
    pub fn subscribe(&mut self) -> (out: Option<u64>)
        requires
            old(self).wf(),
        ensures
            final(self).wf(),
            final(self).chain() == old(self).chain(),
            final(self).retained() == old(self).retained(),
            final(self).cache_entries() == old(self).cache_entries(),
            final(self).in_flight() == old(self).in_flight(),
            final(self).cache_capacity() == old(self).cache_capacity(),
            final(self).cached_price() == old(self).cached_price(),
            final(self).sample_window() == old(self).sample_window(),
            final(self).percentile() == old(self).percentile(),
            final(self).fee_samples() == old(self).fee_samples(),
            final(self).fee_window() == old(self).fee_window(),
            final(self).pool() == old(self).pool(),
            old(self).hub().next_id < u64::MAX ==> {
                &&& out == Some(old(self).hub().next_id as u64)
                &&& final(self).hub() == old(self).hub().subscribed()
            },
            old(self).hub().next_id >= u64::MAX ==> {
                &&& out.is_none()
                &&& final(self).hub() == old(self).hub()
            },
    {
        self.tracker.subscribe()
    }

    /// Removes the subscriber `id`; says whether there was one.
    pub fn unsubscribe(&mut self, id: u64) -> (out: bool)
        requires
            old(self).wf(),
        ensures
            final(self).wf(),
            final(self).chain() == old(self).chain(),
            final(self).retained() == old(self).retained(),
            final(self).cache_entries() == old(self).cache_entries(),
            final(self).in_flight() == old(self).in_flight(),
            final(self).cache_capacity() == old(self).cache_capacity(),
            final(self).cached_price() == old(self).cached_price(),
            final(self).sample_window() == old(self).sample_window(),
            final(self).percentile() == old(self).percentile(),
            final(self).fee_samples() == old(self).fee_samples(),
            final(self).fee_window() == old(self).fee_window(),
            final(self).pool() == old(self).pool(),
            out == old(self).hub().has(id),
            final(self).hub() == old(self).hub().unsubscribed(id),
    {
        self.tracker.unsubscribe(id)
    }

    /// Hands the subscriber `id` its next notification.
    pub fn poll(&mut self, id: u64) -> (out: Result<Option<ChainNotification>, SubscriptionError>)
        requires
            old(self).wf(),
        ensures
            final(self).wf(),
            final(self).chain() == old(self).chain(),
            final(self).retained() == old(self).retained(),
            final(self).cache_entries() == old(self).cache_entries(),
            final(self).in_flight() == old(self).in_flight(),
            final(self).cache_capacity() == old(self).cache_capacity(),
            final(self).cached_price() == old(self).cached_price(),
            final(self).sample_window() == old(self).sample_window(),
            final(self).percentile() == old(self).percentile(),
            final(self).fee_samples() == old(self).fee_samples(),
            final(self).fee_window() == old(self).fee_window(),
            final(self).pool() == old(self).pool(),
            answer_view(out) == old(self).hub().poll_result(id),
            final(self).hub() == old(self).hub().polled(id),
    {
        self.tracker.poll(id)
    }
}

} // verus!
