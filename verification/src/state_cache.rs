//! A bounded cache of account and storage values, each valid at one block.
//!
//! Entries are kept from the least to the most recently used. A reorg evicts
//! every entry of a discarded block, so that a value read from the cache is
//! always one of a block of the canonical chain. Reads that miss are
//! coalesced: of all the readers that miss the same slot, one is told to
//! fetch and the others to wait for it.

use crate::seq_lemmas::lemma_filter_drops_one;
use crate::seq_lemmas::lemma_filter_keeps_all;
use crate::seq_lemmas::lemma_filter_keeps_no_duplicates;
use crate::types::contains_block;
use crate::types::Address;
use crate::types::B256;
use crate::types::BlockRef;
use crate::types::ChainNotification;
use crate::types::NotificationView;
use vstd::prelude::*;

verus! {

/// What a cached value belongs to: an account, or one storage slot of it.
#[derive(Clone, Copy, Debug, PartialEq, Eq, Structural, Hash)]
pub enum StateKey {
    Account { address: Address },
    Storage { address: Address, slot: B256 },
}

/// A value read at a block.
#[derive(Clone, Copy, Debug, PartialEq, Eq, Structural)]
pub struct CacheEntry {
    pub key: StateKey,
    pub value: B256,
    pub valid_at_block: BlockRef,
}

/// A read that went to the chain data provider and has not come back yet.
#[derive(Clone, Copy, Debug, PartialEq, Eq, Structural)]
pub struct PendingFetch {
    pub block: BlockRef,
    pub key: StateKey,
}

/// What a reader is told to do.
#[derive(Clone, Copy, Debug, PartialEq, Eq, Structural)]
pub enum Lookup {
    /// The value is cached.
    Hit { value: B256 },
    /// The value is not cached and nobody fetches it: the reader fetches it.
    Fetch,
    /// The value is not cached and another reader fetches it already.
    Wait,
}

/// `e` is the entry of `key` at `block`.
pub open spec fn slot_of(e: CacheEntry, block: BlockRef, key: StateKey) -> bool {
    e.valid_at_block == block && e.key == key
}

/// Some entry is the one of `key` at `block`.
pub open spec fn has_slot(entries: Seq<CacheEntry>, block: BlockRef, key: StateKey) -> bool {
    exists|i: int| 0 <= i < entries.len() && slot_of(#[trigger] entries[i], block, key)
}

/// Where the entry of `key` at `block` stands.
pub open spec fn slot_index(entries: Seq<CacheEntry>, block: BlockRef, key: StateKey) -> int {
    choose|i: int| 0 <= i < entries.len() && slot_of(#[trigger] entries[i], block, key)
}

/// No two entries belong to the same key at the same block.
pub open spec fn unique_slots(entries: Seq<CacheEntry>) -> bool {
    forall|i: int, j: int|
        0 <= i < j < entries.len() ==> !slot_of(
            #[trigger] entries[i],
            (#[trigger] entries[j]).valid_at_block,
            entries[j].key,
        )
}

/// The cached value of `key` at `block`.
pub open spec fn cached_value(entries: Seq<CacheEntry>, block: BlockRef, key: StateKey) -> Option<
    B256,
> {
    if has_slot(entries, block, key) {
        Some(entries[slot_index(entries, block, key)].value)
    } else {
        None
    }
}

/// The entries that are not the one of `key` at `block`.
pub open spec fn other_slots(block: BlockRef, key: StateKey) -> spec_fn(CacheEntry) -> bool {
    |e: CacheEntry| !slot_of(e, block, key)
}

/// The entries after a read of `key` at `block`: the entry that was read, if
/// there is one, becomes the most recently used.
pub open spec fn touched(entries: Seq<CacheEntry>, block: BlockRef, key: StateKey) -> Seq<
    CacheEntry,
> {
    if has_slot(entries, block, key) {
        entries.filter(other_slots(block, key)).push(entries[slot_index(entries, block, key)])
    } else {
        entries
    }
}

/// The last `capacity` entries.
pub open spec fn trimmed(entries: Seq<CacheEntry>, capacity: nat) -> Seq<CacheEntry> {
    if entries.len() > capacity {
        entries.skip(entries.len() - capacity)
    } else {
        entries
    }
}

/// The entries after `e` is inserted: it replaces the entry of its key at its
/// block, becomes the most recently used, and the least recently used
/// entries leave until `capacity` are left.
pub open spec fn inserted(entries: Seq<CacheEntry>, capacity: nat, e: CacheEntry) -> Seq<
    CacheEntry,
> {
    trimmed(entries.filter(other_slots(e.valid_at_block, e.key)).push(e), capacity)
}

/// The entries whose block is not among `discarded`.
pub open spec fn on_kept_block(discarded: Seq<BlockRef>) -> spec_fn(CacheEntry) -> bool {
    |e: CacheEntry| !discarded.contains(e.valid_at_block)
}

/// The fetches whose block is not among `discarded`.
pub open spec fn fetch_on_kept_block(discarded: Seq<BlockRef>) -> spec_fn(PendingFetch) -> bool {
    |p: PendingFetch| !discarded.contains(p.block)
}

/// The fetches other than `p`.
pub open spec fn other_fetches(p: PendingFetch) -> spec_fn(PendingFetch) -> bool {
    |q: PendingFetch| q != p
}

/// The entries after a chain notification: those of discarded blocks leave.
pub open spec fn evicted(entries: Seq<CacheEntry>, n: NotificationView) -> Seq<CacheEntry> {
    entries.filter(on_kept_block(n.discarded()))
}

/// What a reader of `key` at `block` is told.
pub open spec fn lookup_outcome(
    entries: Seq<CacheEntry>,
    in_flight: Seq<PendingFetch>,
    block: BlockRef,
    key: StateKey,
) -> Lookup {
    match cached_value(entries, block, key) {
        Some(value) => Lookup::Hit { value },
        None => if in_flight.contains(PendingFetch { block, key }) {
            Lookup::Wait
        } else {
            Lookup::Fetch
        },
    }
}

/// Every entry belongs to a block of `chain`.
pub open spec fn coherent(entries: Seq<CacheEntry>, chain: Seq<BlockRef>) -> bool {
    forall|i: int| 0 <= i < entries.len() ==> chain.contains((#[trigger] entries[i]).valid_at_block)
}

/// What passes a filter stood in the sequence, passes the test, and keeps its
/// order: a sequence without two entries of one slot stays so.
pub proof fn lemma_filter_keeps_unique_slots(entries: Seq<CacheEntry>, pred: spec_fn(CacheEntry) -> bool)
    requires
        unique_slots(entries),
    ensures
        unique_slots(entries.filter(pred)),
        entries.filter(pred).len() <= entries.len(),
        forall|k: int|
            0 <= k < entries.filter(pred).len() ==> entries.contains(
                #[trigger] entries.filter(pred)[k],
            ) && pred(entries.filter(pred)[k]),
    decreases entries.len(),
{
    reveal(Seq::filter);
    if entries.len() > 0 {
        let front = entries.drop_last();
        let last = entries.last();
        assert forall|i: int, j: int| 0 <= i < j < front.len() implies !slot_of(
            #[trigger] front[i],
            (#[trigger] front[j]).valid_at_block,
            front[j].key,
        ) by {
            assert(front[i] == entries[i] && front[j] == entries[j]);
        }
        lemma_filter_keeps_unique_slots(front, pred);
        let kept = front.filter(pred);
        let out = entries.filter(pred);
        assert forall|k: int| 0 <= k < out.len() implies entries.contains(#[trigger] out[k])
            && pred(out[k]) by {
            if k < kept.len() {
                assert(out[k] == kept[k]);
                assert(front.contains(kept[k]));
                let m = choose|m: int| 0 <= m < front.len() && front[m] == kept[k];
                assert(entries[m] == kept[k]);
            } else {
                assert(out[k] == entries[entries.len() - 1]);
            }
        }
        if pred(last) {
            assert forall|i: int, j: int| 0 <= i < j < out.len() implies !slot_of(
                #[trigger] out[i],
                (#[trigger] out[j]).valid_at_block,
                out[j].key,
            ) by {
                assert(out[i] == kept[i]);
                if j < kept.len() {
                    assert(out[j] == kept[j]);
                } else {
                    assert(front.contains(kept[i]));
                    let m = choose|m: int| 0 <= m < front.len() && front[m] == kept[i];
                    assert(entries[m] == kept[i]);
                    assert(entries[entries.len() - 1] == out[j]);
                }
            }
        }
    }
}

/// In a sequence without two entries of one slot, the entry of a slot is
/// where any entry of that slot is found.
pub proof fn lemma_slot_index_is(entries: Seq<CacheEntry>, block: BlockRef, key: StateKey, i: int)
    requires
        unique_slots(entries),
        0 <= i < entries.len(),
        slot_of(entries[i], block, key),
    ensures
        has_slot(entries, block, key),
        slot_index(entries, block, key) == i,
        entries.filter(other_slots(block, key)) == entries.remove(i),
{
    let c = slot_index(entries, block, key);
    if c < i {
        assert(!slot_of(entries[c], entries[i].valid_at_block, entries[i].key));
    } else if i < c {
        assert(!slot_of(entries[i], entries[c].valid_at_block, entries[c].key));
    }
    let pred = other_slots(block, key);
    assert forall|j: int| 0 <= j < entries.len() && j != i implies pred(#[trigger] entries[j]) by {
        if j < i {
            assert(!slot_of(entries[j], entries[i].valid_at_block, entries[i].key));
        } else {
            assert(!slot_of(entries[i], entries[j].valid_at_block, entries[j].key));
        }
    }
    lemma_filter_drops_one(entries, pred, i);
}

/// Where no entry belongs to a slot, leaving that slot out changes nothing.
pub proof fn lemma_no_slot(entries: Seq<CacheEntry>, block: BlockRef, key: StateKey)
    requires
        !has_slot(entries, block, key),
    ensures
        entries.filter(other_slots(block, key)) == entries,
{
    let pred = other_slots(block, key);
    assert forall|j: int| 0 <= j < entries.len() implies pred(#[trigger] entries[j]) by {
        if !pred(entries[j]) {
            assert(slot_of(entries[j], block, key));
        }
    }
    lemma_filter_keeps_all(entries, pred);
}

/// A read changes no entry and an insertion adds one entry of a block of the
/// chain: entries that all belong to the chain keep doing so.
pub proof fn lemma_use_keeps_coherence(
    entries: Seq<CacheEntry>,
    capacity: nat,
    chain: Seq<BlockRef>,
    e: CacheEntry,
)
    requires
        unique_slots(entries),
        coherent(entries, chain),
    ensures
        coherent(touched(entries, e.valid_at_block, e.key), chain),
        chain.contains(e.valid_at_block) ==> coherent(inserted(entries, capacity, e), chain),
        unique_slots(touched(entries, e.valid_at_block, e.key)),
        unique_slots(inserted(entries, capacity, e)),
        inserted(entries, capacity, e).len() <= capacity,
        touched(entries, e.valid_at_block, e.key).len() == entries.len(),
{
    lemma_use(entries, capacity, chain, e);
}

proof fn lemma_use(entries: Seq<CacheEntry>, capacity: nat, chain: Seq<BlockRef>, e: CacheEntry)
    requires
        unique_slots(entries),
    ensures
        coherent(entries, chain) ==> coherent(touched(entries, e.valid_at_block, e.key), chain),
        coherent(entries, chain) && chain.contains(e.valid_at_block) ==> coherent(
            inserted(entries, capacity, e),
            chain,
        ),
        unique_slots(touched(entries, e.valid_at_block, e.key)),
        unique_slots(inserted(entries, capacity, e)),
        inserted(entries, capacity, e).len() <= capacity,
        touched(entries, e.valid_at_block, e.key).len() == entries.len(),
{
    let pred = other_slots(e.valid_at_block, e.key);
    let rest = entries.filter(pred);
    lemma_filter_keeps_unique_slots(entries, pred);
    assert forall|k: int| 0 <= k < rest.len() && coherent(entries, chain) implies chain.contains(
        (#[trigger] rest[k]).valid_at_block,
    ) by {
        assert(entries.contains(rest[k]));
        let m = choose|m: int| 0 <= m < entries.len() && entries[m] == rest[k];
        assert(chain.contains(entries[m].valid_at_block));
    }
    if has_slot(entries, e.valid_at_block, e.key) {
        let i = slot_index(entries, e.valid_at_block, e.key);
        lemma_slot_index_is(entries, e.valid_at_block, e.key, i);
        let moved = rest.push(entries[i]);
        assert forall|k: int| 0 <= k < moved.len() && coherent(entries, chain) implies chain.contains(
            (#[trigger] moved[k]).valid_at_block,
        ) by {
            if k < rest.len() {
                assert(moved[k] == rest[k]);
            } else {
                assert(chain.contains(entries[i].valid_at_block));
            }
        }
        assert forall|a: int, b: int| 0 <= a < b < moved.len() implies !slot_of(
            #[trigger] moved[a],
            (#[trigger] moved[b]).valid_at_block,
            moved[b].key,
        ) by {
            assert(moved[a] == rest[a]);
            if b < rest.len() {
                assert(moved[b] == rest[b]);
            } else {
                assert(pred(rest[a]));
            }
        }
    }
    let grown = rest.push(e);
    assert forall|a: int, b: int| 0 <= a < b < grown.len() implies !slot_of(
        #[trigger] grown[a],
        (#[trigger] grown[b]).valid_at_block,
        grown[b].key,
    ) by {
        assert(grown[a] == rest[a]);
        if b < rest.len() {
            assert(grown[b] == rest[b]);
        } else {
            assert(pred(rest[a]));
        }
    }
    let out = inserted(entries, capacity, e);
    let cut = grown.len() - out.len();
    assert forall|a: int, b: int| 0 <= a < b < out.len() implies !slot_of(
        #[trigger] out[a],
        (#[trigger] out[b]).valid_at_block,
        out[b].key,
    ) by {
        assert(out[a] == grown[a + cut] && out[b] == grown[b + cut]);
    }
    if chain.contains(e.valid_at_block) && coherent(entries, chain) {
        assert forall|k: int| 0 <= k < out.len() implies chain.contains(
            (#[trigger] out[k]).valid_at_block,
        ) by {
            assert(out[k] == grown[k + cut]);
            if k + cut < rest.len() {
                assert(grown[k + cut] == rest[k + cut]);
            }
        }
    }
}

/// After a notification that describes a change of the chain, the entries
/// that stay all belong to the chain as it is then.
pub proof fn lemma_eviction_keeps_coherence(
    entries: Seq<CacheEntry>,
    chain: Seq<BlockRef>,
    n: NotificationView,
)
    requires
        unique_slots(entries),
        coherent(entries, chain),
        n.applies_to(chain),
    ensures
        coherent(evicted(entries, n), n.apply(chain)),
        unique_slots(evicted(entries, n)),
        evicted(entries, n).len() <= entries.len(),
{
    let pred = on_kept_block(n.discarded());
    let out = evicted(entries, n);
    let next = n.apply(chain);
    let cut = chain.len() - n.discarded().len();
    lemma_filter_keeps_unique_slots(entries, pred);
    assert forall|k: int| 0 <= k < out.len() implies next.contains(
        (#[trigger] out[k]).valid_at_block,
    ) by {
        let b = out[k].valid_at_block;
        assert(entries.contains(out[k]));
        let m = choose|m: int| 0 <= m < entries.len() && entries[m] == out[k];
        assert(chain.contains(entries[m].valid_at_block));
        let c = choose|c: int| 0 <= c < chain.len() && chain[c] == b;
        assert(pred(out[k]));
        if c >= cut {
            assert(chain.subrange(cut, chain.len() as int)[c - cut] == b);
            assert(n.discarded().contains(b));
        }
        assert(next[c] == b);
    }
}

/// One thing that happens to a cache: the chain changes, a value is
/// inserted, or a value is read.
pub enum CacheStep {
    Notify { notification: NotificationView },
    Insert { entry: CacheEntry },
    Read { block: BlockRef, key: StateKey },
}

/// The entries of a cache beside the canonical chain.
pub struct CacheRun {
    pub entries: Seq<CacheEntry>,
    pub chain: Seq<BlockRef>,
}

impl CacheRun {
    /// The step fits the chain: a notification describes a change of it, and
    /// a value is inserted for one of its blocks.
    pub open spec fn allows(self, step: CacheStep) -> bool {
        match step {
            CacheStep::Notify { notification } => notification.applies_to(self.chain),
            CacheStep::Insert { entry } => self.chain.contains(entry.valid_at_block),
            CacheStep::Read { .. } => true,
        }
    }

    /// The cache and the chain after the step.
    pub open spec fn after(self, capacity: nat, step: CacheStep) -> CacheRun {
        match step {
            CacheStep::Notify { notification } => CacheRun {
                entries: evicted(self.entries, notification),
                chain: notification.apply(self.chain),
            },
            CacheStep::Insert { entry } => CacheRun {
                entries: inserted(self.entries, capacity, entry),
                chain: self.chain,
            },
            CacheStep::Read { block, key } => CacheRun {
                entries: touched(self.entries, block, key),
                chain: self.chain,
            },
        }
    }

    /// The cache and the chain after all the steps.
    pub open spec fn after_all(self, capacity: nat, steps: Seq<CacheStep>) -> CacheRun
        decreases steps.len(),
    {
        if steps.len() == 0 {
            self
        } else {
            self.after_all(capacity, steps.drop_last()).after(capacity, steps.last())
        }
    }

    /// Each step fits the chain as it is when the step is taken.
    pub open spec fn allows_all(self, capacity: nat, steps: Seq<CacheStep>) -> bool
        decreases steps.len(),
    {
        if steps.len() == 0 {
            true
        } else {
            self.allows_all(capacity, steps.drop_last()) && self.after_all(
                capacity,
                steps.drop_last(),
            ).allows(steps.last())
        }
    }
}

/// Whatever notifications, insertions and reads follow one another, each
/// fitting the chain of its moment, every entry of the cache belongs to a
/// block of the canonical chain, and so does every value that a read gives.
pub proof fn lemma_no_stale_reads(start: CacheRun, capacity: nat, steps: Seq<CacheStep>)
    requires
        unique_slots(start.entries),
        coherent(start.entries, start.chain),
        start.allows_all(capacity, steps),
    ensures
        unique_slots(start.after_all(capacity, steps).entries),
        coherent(
            start.after_all(capacity, steps).entries,
            start.after_all(capacity, steps).chain,
        ),
        forall|block: BlockRef, key: StateKey|
            (#[trigger] cached_value(
                start.after_all(capacity, steps).entries,
                block,
                key,
            )).is_some() ==> start.after_all(capacity, steps).chain.contains(block),
    decreases steps.len(),
{
    let end = start.after_all(capacity, steps);
    if steps.len() > 0 {
        let before = start.after_all(capacity, steps.drop_last());
        lemma_no_stale_reads(start, capacity, steps.drop_last());
        match steps.last() {
            CacheStep::Notify { notification } => {
                lemma_eviction_keeps_coherence(before.entries, before.chain, notification);
            },
            CacheStep::Insert { entry } => {
                lemma_use_keeps_coherence(before.entries, capacity, before.chain, entry);
            },
            CacheStep::Read { block, key } => {
                lemma_use_keeps_coherence(
                    before.entries,
                    capacity,
                    before.chain,
                    CacheEntry { key, value: B256 { hi: 0, lo: 0 }, valid_at_block: block },
                );
            },
        }
    }
    assert forall|block: BlockRef, key: StateKey| (#[trigger] cached_value(end.entries, block, key)).is_some() implies end.chain.contains(block) by {
        let i = slot_index(end.entries, block, key);
        assert(end.chain.contains(end.entries[i].valid_at_block));
    }
}

/// The cache.
pub struct StateCache {
    entries: Vec<CacheEntry>,
    capacity: usize,
    in_flight: Vec<PendingFetch>,
}

impl StateCache {
    /// The entries, from the least to the most recently used.
    pub closed spec fn entries(&self) -> Seq<CacheEntry> {
        self.entries@
    }

    /// The reads that are being fetched.
    pub closed spec fn in_flight(&self) -> Seq<PendingFetch> {
        self.in_flight@
    }

    /// The number of entries that the cache holds at most.
    pub closed spec fn capacity(&self) -> nat {
        self.capacity as nat
    }

    /// At most `capacity()` entries, no two of one key at one block, and no
    /// read that is fetched twice.
    pub open spec fn wf(&self) -> bool {
        &&& self.entries().len() <= self.capacity()
        &&& unique_slots(self.entries())
        &&& self.in_flight().no_duplicates()
    }

    /// An empty cache of at most `capacity` entries.
    pub fn new(capacity: usize) -> (out: StateCache)
        ensures
            out.wf(),
            out.entries() == Seq::<CacheEntry>::empty(),
            out.in_flight() == Seq::<PendingFetch>::empty(),
            out.capacity() == capacity,
    {
        StateCache { entries: Vec::new(), capacity, in_flight: Vec::new() }
    }

    /// The number of entries.
    pub fn len(&self) -> (n: usize)
        ensures
            n == self.entries().len(),
    {
        self.entries.len()
    }

    /// The number of reads that are being fetched.
    pub fn in_flight_len(&self) -> (n: usize)
        ensures
            n == self.in_flight().len(),
    {
        self.in_flight.len()
    }

    fn find(&self, block: &BlockRef, key: &StateKey) -> (out: Option<usize>)
        requires
            self.wf(),
        ensures
            out.is_some() == has_slot(self.entries(), *block, *key),
            out matches Some(i) ==> i < self.entries().len() && slot_index(
                self.entries(),
                *block,
                *key,
            ) == i && slot_of(self.entries()[i as int], *block, *key)
                && self.entries().filter(other_slots(*block, *key)) == self.entries().remove(
                i as int,
            ),
            out.is_none() ==> self.entries().filter(other_slots(*block, *key)) == self.entries(),
    {
        let mut i: usize = 0;
        while i < self.entries.len()
            invariant
                i <= self.entries.len(),
                self.wf(),
                forall|j: int| 0 <= j < i ==> !slot_of(#[trigger] self.entries@[j], *block, *key),
            decreases self.entries.len() - i,
        {
            let e = self.entries[i];
            if e.valid_at_block == *block && e.key == *key {
                proof {
                    lemma_slot_index_is(self.entries@, *block, *key, i as int);
                }
                return Some(i);
            }
            i = i + 1;
        }
        proof {
            lemma_no_slot(self.entries@, *block, *key);
        }
        None
    }

    fn find_fetch(&self, p: &PendingFetch) -> (out: Option<usize>)
        requires
            self.wf(),
        ensures
            out.is_some() == self.in_flight().contains(*p),
            out matches Some(i) ==> i < self.in_flight().len() && self.in_flight()[i as int] == *p
                && self.in_flight().filter(other_fetches(*p)) == self.in_flight().remove(i as int),
            out.is_none() ==> self.in_flight().filter(other_fetches(*p)) == self.in_flight(),
    {
        let mut i: usize = 0;
        while i < self.in_flight.len()
            invariant
                i <= self.in_flight.len(),
                self.wf(),
                forall|j: int| 0 <= j < i ==> #[trigger] self.in_flight@[j] != *p,
            decreases self.in_flight.len() - i,
        {
            let q = self.in_flight[i];
            if q.block == p.block && q.key == p.key {
                proof {
                    let s = self.in_flight@;
                    let pred = other_fetches(*p);
                    assert forall|j: int| 0 <= j < s.len() && j != i implies pred(
                        #[trigger] s[j],
                    ) by {
                        assert(s[j] != s[i as int]);
                    }
                    lemma_filter_drops_one(s, pred, i as int);
                }
                return Some(i);
            }
            i = i + 1;
        }
        proof {
            let s = self.in_flight@;
            let pred = other_fetches(*p);
            assert forall|j: int| 0 <= j < s.len() implies pred(#[trigger] s[j]) by {}
            lemma_filter_keeps_all(s, pred);
        }
        None
    }

    /// The cached value of `key` at `block`. A value that is read becomes the
    /// most recently used.
    pub fn get(&mut self, block: &BlockRef, key: &StateKey) -> (out: Option<B256>)
        requires
            old(self).wf(),
        ensures
            final(self).wf(),
            final(self).capacity() == old(self).capacity(),
            final(self).in_flight() == old(self).in_flight(),
            out == cached_value(old(self).entries(), *block, *key),
            final(self).entries() == touched(old(self).entries(), *block, *key),
    {
        proof {
            lemma_use(
                self.entries@,
                self.capacity as nat,
                Seq::<BlockRef>::empty(),
                CacheEntry { key: *key, value: B256 { hi: 0, lo: 0 }, valid_at_block: *block },
            );
        }
        match self.find(block, key) {
            Some(i) => {
                let e = self.entries.remove(i);
                self.entries.push(e);
                Some(e.value)
            },
            None => None,
        }
    }

    /// Caches `value` for `key` at `block`, in place of the value cached for
    /// them before, as the most recently used entry. Where the cache is full
    /// the least recently used entry leaves.
    pub fn insert(&mut self, block: BlockRef, key: StateKey, value: B256)
        requires
            old(self).wf(),
        ensures
            final(self).wf(),
            final(self).capacity() == old(self).capacity(),
            final(self).in_flight() == old(self).in_flight(),
            final(self).entries() == inserted(
                old(self).entries(),
                old(self).capacity(),
                CacheEntry { key, value, valid_at_block: block },
            ),
    {
        let e = CacheEntry { key, value, valid_at_block: block };
        proof {
            lemma_use(self.entries@, self.capacity as nat, Seq::<BlockRef>::empty(), e);
        }
        match self.find(&block, &key) {
            Some(i) => {
                self.entries.remove(i);
            },
            None => {},
        }
        self.entries.push(e);
        if self.entries.len() > self.capacity {
            self.entries.remove(0);
            proof {
                let grown = old(self).entries@.filter(other_slots(block, key)).push(e);
                assert(self.entries@ == grown.skip(1));
            }
        }
    }

    /// Follows a chain notification: every entry, and every fetch, of a
    /// discarded block leaves. A commit discards nothing.
    pub fn on_notification(&mut self, notification: &ChainNotification)
        requires
            old(self).wf(),
        ensures
            final(self).wf(),
            final(self).capacity() == old(self).capacity(),
            final(self).entries() == evicted(old(self).entries(), notification@),
            final(self).in_flight() == old(self).in_flight().filter(
                fetch_on_kept_block(notification@.discarded()),
            ),
    {
        broadcast use Seq::lemma_filter_push;

        let discarded = notification.discarded();
        let ghost pred = on_kept_block(discarded@);
        let ghost fetch_pred = fetch_on_kept_block(discarded@);
        let mut kept: Vec<CacheEntry> = Vec::new();
        let mut i: usize = 0;
        proof {
            reveal(Seq::filter);
            assert(self.entries@.take(0).filter(pred) == kept@);
        }
        while i < self.entries.len()
            invariant
                i <= self.entries.len(),
                pred == on_kept_block(discarded@),
                kept@ == self.entries@.take(i as int).filter(pred),
            decreases self.entries.len() - i,
        {
            let e = self.entries[i];
            proof {
                assert(self.entries@.take(i + 1) == self.entries@.take(i as int).push(e));
                self.entries@.take(i as int).lemma_filter_push(e, pred);
            }
            if !contains_block(&discarded, &e.valid_at_block) {
                kept.push(e);
            }
            i = i + 1;
        }
        let mut kept_fetches: Vec<PendingFetch> = Vec::new();
        let mut j: usize = 0;
        proof {
            reveal(Seq::filter);
            assert(self.entries@.take(i as int) == self.entries@);
            assert(self.in_flight@.take(0).filter(fetch_pred) == kept_fetches@);
        }
        while j < self.in_flight.len()
            invariant
                j <= self.in_flight.len(),
                fetch_pred == fetch_on_kept_block(discarded@),
                kept_fetches@ == self.in_flight@.take(j as int).filter(fetch_pred),
            decreases self.in_flight.len() - j,
        {
            let p = self.in_flight[j];
            proof {
                assert(self.in_flight@.take(j + 1) == self.in_flight@.take(j as int).push(p));
                self.in_flight@.take(j as int).lemma_filter_push(p, fetch_pred);
            }
            if !contains_block(&discarded, &p.block) {
                kept_fetches.push(p);
            }
            j = j + 1;
        }
        proof {
            assert(self.in_flight@.take(j as int) == self.in_flight@);
            lemma_filter_keeps_unique_slots(self.entries@, pred);
            lemma_filter_keeps_no_duplicates(self.in_flight@, fetch_pred);
        }
        self.entries = kept;
        self.in_flight = kept_fetches;
    }

    /// Tells a reader of `key` at `block` what to do: take the cached value,
    /// fetch the value, or wait for the reader that fetches it. A reader that
    /// is told to fetch is recorded, so that no second one is.
    pub fn lookup(&mut self, block: &BlockRef, key: &StateKey) -> (out: Lookup)
        requires
            old(self).wf(),
        ensures
            final(self).wf(),
            final(self).capacity() == old(self).capacity(),
            out == lookup_outcome(old(self).entries(), old(self).in_flight(), *block, *key),
            final(self).entries() == touched(old(self).entries(), *block, *key),
            final(self).in_flight() == if out == Lookup::Fetch {
                old(self).in_flight().push(PendingFetch { block: *block, key: *key })
            } else {
                old(self).in_flight()
            },
    {
        match self.get(block, key) {
            Some(value) => Lookup::Hit { value },
            None => {
                let p = PendingFetch { block: *block, key: *key };
                match self.find_fetch(&p) {
                    Some(_) => Lookup::Wait,
                    None => {
                        self.in_flight.push(p);
                        Lookup::Fetch
                    },
                }
            },
        }
    }

    /// Takes the value that a fetch brought. It is cached where the fetch is
    /// still recorded, and dropped where it is not (its block was discarded
    /// meanwhile, or the fetch was given up). Says whether it was cached.
    pub fn fulfill(&mut self, block: BlockRef, key: StateKey, value: B256) -> (out: bool)
        requires
            old(self).wf(),
        ensures
            final(self).wf(),
            final(self).capacity() == old(self).capacity(),
            out == old(self).in_flight().contains(PendingFetch { block, key }),
            final(self).in_flight() == old(self).in_flight().filter(
                other_fetches(PendingFetch { block, key }),
            ),
            final(self).entries() == if out {
                inserted(
                    old(self).entries(),
                    old(self).capacity(),
                    CacheEntry { key, value, valid_at_block: block },
                )
            } else {
                old(self).entries()
            },
    {
        let p = PendingFetch { block, key };
        proof {
            lemma_filter_keeps_no_duplicates(self.in_flight@, other_fetches(p));
        }
        match self.find_fetch(&p) {
            Some(i) => {
                self.in_flight.remove(i);
                self.insert(block, key, value);
                true
            },
            None => false,
        }
    }

    /// Gives a fetch up (the provider failed): the next reader of the slot is
    /// told to fetch again.
    pub fn abandon(&mut self, block: BlockRef, key: StateKey)
        requires
            old(self).wf(),
        ensures
            final(self).wf(),
            final(self).capacity() == old(self).capacity(),
            final(self).entries() == old(self).entries(),
            final(self).in_flight() == old(self).in_flight().filter(
                other_fetches(PendingFetch { block, key }),
            ),
    {
        let p = PendingFetch { block, key };
        proof {
            lemma_filter_keeps_no_duplicates(self.in_flight@, other_fetches(p));
        }
        match self.find_fetch(&p) {
            Some(i) => {
                self.in_flight.remove(i);
            },
            None => {},
        }
    }
}

/// While a read is being fetched, no reader of the same slot is told to
/// fetch: it is given the cached value or told to wait.
pub proof fn lemma_single_flight(
    entries: Seq<CacheEntry>,
    in_flight: Seq<PendingFetch>,
    block: BlockRef,
    key: StateKey,
)
    ensures
        lookup_outcome(entries, in_flight, block, key) == Lookup::Fetch ==> !in_flight.contains(
            PendingFetch { block, key },
        ) && lookup_outcome(
            touched(entries, block, key),
            in_flight.push(PendingFetch { block, key }),
            block,
            key,
        ) == Lookup::Wait,
{
    let p = PendingFetch { block, key };
    if lookup_outcome(entries, in_flight, block, key) == Lookup::Fetch {
        assert(in_flight.push(p)[in_flight.len() as int] == p);
    }
}

} // verus!
