//! The transaction pool.
//!
//! Submitted transactions are validated, queued in the order of their
//! arrival and ranked by tip. The pool follows each change of the canonical
//! chain; the rules it goes by are those of the pool model.

use crate::pool_model::account_of;
use crate::pool_model::apart;
use crate::pool_model::comes_back;
use crate::pool_model::effective_tip;
use crate::pool_model::entry_hash;
use crate::pool_model::fails;
use crate::pool_model::has_hash;
use crate::pool_model::has_slot;
use crate::pool_model::hash_index;
use crate::pool_model::is_mined;
use crate::pool_model::not_mined;
use crate::pool_model::other_slots;
use crate::pool_model::outbids;
use crate::pool_model::passes;
use crate::pool_model::rank_insert;
use crate::pool_model::ranking;
use crate::pool_model::requeue_all;
use crate::pool_model::requeued_hashes;
use crate::pool_model::restate;
use crate::pool_model::restated;
use crate::pool_model::same_slot;
use crate::pool_model::slot_index;
use crate::pool_model::still_valid;
use crate::pool_model::tip;
use crate::pool_model::validation;
use crate::pool_model::AccountState;
use crate::pool_model::EntryView;
use crate::pool_model::PoolConfig;
use crate::pool_model::PoolView;
use crate::pool_model::RejectReason;
use crate::pool_model::TxStatus;
use crate::pool_model::TxView;
use crate::pool_model::UpdateView;
use crate::pool_model::ValidationFailure;
use crate::seq_lemmas::lemma_filter_drops_one;
use crate::seq_lemmas::lemma_filter_keeps_all;
use crate::seq_lemmas::lemma_filter_keeps_pairwise;
use crate::types::Address;
use crate::types::B256;
use vstd::arithmetic::div_mod::lemma_fundamental_div_mod;
use vstd::arithmetic::div_mod::lemma_mod_pos_bound;
use vstd::prelude::*;

verus! {

/// A transaction that a client submitted.
#[derive(Clone, Debug, PartialEq, Eq)]
pub struct PooledTransaction {
    pub hash: B256,
    pub sender: Address,
    pub nonce: u64,
    /// The gas price, or the cap on the fee per gas.
    pub fee_cap: u128,
    pub gas_limit: u64,
    pub payload: Vec<u8>,
}

impl View for PooledTransaction {
    type V = TxView;

    open spec fn view(&self) -> TxView {
        TxView {
            hash: self.hash,
            sender: self.sender,
            nonce: self.nonce,
            fee_cap: self.fee_cap,
            gas_limit: self.gas_limit,
            payload: self.payload@,
        }
    }
}

impl PooledTransaction {
    /// A transaction with the same content.
    pub fn duplicate(&self) -> (out: PooledTransaction)
        ensures
            out@ == self@,
    {
        let mut payload: Vec<u8> = Vec::new();
        let mut i: usize = 0;
        while i < self.payload.len()
            invariant
                i <= self.payload.len(),
                payload@ == self.payload@.take(i as int),
            decreases self.payload.len() - i,
        {
            payload.push(self.payload[i]);
            i = i + 1;
        }
        proof {
            assert(self.payload@.take(i as int) == self.payload@);
        }
        PooledTransaction {
            hash: self.hash,
            sender: self.sender,
            nonce: self.nonce,
            fee_cap: self.fee_cap,
            gas_limit: self.gas_limit,
            payload,
        }
    }
}

/// The views of a list of transactions.
pub open spec fn tx_views(txs: Seq<PooledTransaction>) -> Seq<TxView> {
    txs.map_values(|t: PooledTransaction| t@)
}

/// The transactions of a list of queued transactions.
pub open spec fn entry_txs(entries: Seq<EntryView>) -> Seq<TxView> {
    entries.map_values(|e: EntryView| e.tx)
}

/// The first check that `tx` fails against an account with `nonce` and
/// `balance`, if it fails one. The checks, in order: the transaction is well
/// formed, the balance covers its cost, its nonce is not below the
/// account's, and its gas limit is not above what a block holds.
pub fn validate(tx: &PooledTransaction, nonce: u64, balance: u128, config: &PoolConfig) -> (out:
    Option<ValidationFailure>)
    ensures
        out == validation(tx@, nonce, balance, *config),
{
    if tx.gas_limit == 0 || tx.payload.len() > config.max_payload_bytes {
        return Some(ValidationFailure::Malformed);
    }
    match (tx.gas_limit as u128).checked_mul(tx.fee_cap) {
        Some(cost) => {
            if balance < cost {
                return Some(ValidationFailure::InsufficientBalance);
            }
        },
        None => {
            return Some(ValidationFailure::InsufficientBalance);
        },
    }
    if tx.nonce < nonce {
        return Some(ValidationFailure::NonceTooLow);
    }
    if tx.gas_limit > config.block_gas_limit {
        return Some(ValidationFailure::GasLimitExceeded);
    }
    None
}

/// What `fee_cap` leaves to the block proposer above `base_fee`.
pub fn tip_of(fee_cap: u128, base_fee: u64) -> (out: u128)
    ensures
        out == effective_tip(fee_cap, base_fee),
{
    if fee_cap >= base_fee as u128 {
        fee_cap - base_fee as u128
    } else {
        0
    }
}

proof fn lemma_outbids(new_tip: int, old_tip: int, bump: int)
    requires
        0 <= new_tip,
        0 <= old_tip,
        0 <= bump,
    ensures
        0 <= (old_tip / 100) * bump,
        0 <= ((old_tip % 100) * bump) / 100,
        0 <= (old_tip % 100) * bump <= 99 * bump,
        100 * new_tip > old_tip * (100 + bump) <==> new_tip > old_tip && new_tip - old_tip > (
        old_tip / 100) * bump + ((old_tip % 100) * bump) / 100,
{
    let q = old_tip / 100;
    let r = old_tip % 100;
    lemma_fundamental_div_mod(old_tip, 100);
    lemma_mod_pos_bound(old_tip, 100);
    let y = r * bump;
    assert(0 <= y <= 99 * bump) by (nonlinear_arith)
        requires
            y == r * bump,
            0 <= r <= 99,
            0 <= bump,
    ;
    lemma_fundamental_div_mod(y, 100);
    lemma_mod_pos_bound(y, 100);
    let m = y % 100;
    let t = q * bump + y / 100;
    assert(0 <= q * bump) by (nonlinear_arith)
        requires
            0 <= q,
            0 <= bump,
    ;
    assert(old_tip * bump == 100 * t + m) by (nonlinear_arith)
        requires
            old_tip == 100 * q + r,
            y == r * bump,
            y == 100 * (y / 100) + m,
            t == q * bump + y / 100,
    ;
    assert(old_tip * (100 + bump) == 100 * old_tip + old_tip * bump) by (nonlinear_arith);
}

/// Whether `new_tip` exceeds `old_tip` by more than `bump` percent of it.
pub fn outbids_by(new_tip: u128, old_tip: u128, bump: u32) -> (out: bool)
    ensures
        out == outbids(new_tip as nat, old_tip as nat, bump),
{
    proof {
        lemma_outbids(new_tip as int, old_tip as int, bump as int);
    }
    if new_tip <= old_tip {
        return false;
    }
    let raise = new_tip - old_tip;
    let whole = match (old_tip / 100).checked_mul(bump as u128) {
        Some(x) => x,
        None => {
            return false;
        },
    };
    let part: u128 = ((old_tip % 100) * (bump as u128)) / 100;
    match whole.checked_add(part) {
        Some(threshold) => raise > threshold,
        None => false,
    }
}

/// A queued transaction.
pub struct PoolEntry {
    tx: PooledTransaction,
    arrival: u64,
    status: TxStatus,
}

impl View for PoolEntry {
    type V = EntryView;

    closed spec fn view(&self) -> EntryView {
        EntryView { tx: self.tx@, arrival: self.arrival, status: self.status }
    }
}

/// The views of a list of queued transactions.
pub closed spec fn entry_views(entries: Seq<PoolEntry>) -> Seq<EntryView> {
    entries.map_values(|e: PoolEntry| e@)
}

/// The pool.
pub struct TransactionPool {
    entries: Vec<PoolEntry>,
    base_fee: u64,
    next_arrival: u64,
    config: PoolConfig,
}

impl View for TransactionPool {
    type V = PoolView;

    closed spec fn view(&self) -> PoolView {
        PoolView {
            entries: entry_views(self.entries@),
            base_fee: self.base_fee,
            next_arrival: self.next_arrival as nat,
            config: self.config,
        }
    }
}

/// The queued transactions that `order` names, in its order.
spec fn picks(order: Seq<usize>, entries: Seq<EntryView>) -> Seq<EntryView> {
    Seq::new(order.len(), |k: int| entries[order[k] as int])
}

/// Places the transaction `idx` behind the last one of `order` whose tip is
/// not below its own.
fn rank_into(order: &mut Vec<usize>, entries: &Vec<PoolEntry>, idx: usize, base_fee: u64)
    requires
        idx < entries.len(),
        forall|k: int| 0 <= k < old(order)@.len() ==> #[trigger] old(order)@[k] < entries.len(),
    ensures
        forall|k: int| 0 <= k < final(order)@.len() ==> #[trigger] final(order)@[k] < entries.len(),
        picks(final(order)@, entry_views(entries@)) == rank_insert(
            picks(old(order)@, entry_views(entries@)),
            entry_views(entries@)[idx as int],
            base_fee,
        ),
{
    let ghost ev = entry_views(entries@);
    let ghost e = ev[idx as int];
    let ghost sorted = picks(order@, ev);
    let mine = tip_of(entries[idx].tx.fee_cap, base_fee);
    let mut pos: usize = order.len();
    proof {
        assert(sorted.take(pos as int) == sorted);
        assert(rank_insert(sorted, e, base_fee) + sorted.skip(pos as int) == rank_insert(
            sorted,
            e,
            base_fee,
        ));
    }
    while pos > 0 && tip_of(entries[order[pos - 1]].tx.fee_cap, base_fee) < mine
        invariant
            pos <= order.len(),
            order@ == old(order)@,
            idx < entries.len(),
            ev == entry_views(entries@),
            e == ev[idx as int],
            sorted == picks(order@, ev),
            mine == tip(e, base_fee),
            forall|k: int| 0 <= k < order@.len() ==> #[trigger] order@[k] < entries.len(),
            rank_insert(sorted, e, base_fee) == rank_insert(sorted.take(pos as int), e, base_fee)
                + sorted.skip(pos as int),
        decreases pos,
    {
        proof {
            let head = sorted.take(pos as int);
            assert(head.last() == ev[order@[pos - 1] as int]);
            assert(head.drop_last() == sorted.take(pos - 1));
            assert(rank_insert(head, e, base_fee) == rank_insert(head.drop_last(), e, base_fee).push(
                head.last(),
            ));
            assert(rank_insert(head.drop_last(), e, base_fee).push(head.last()) + sorted.skip(
                pos as int,
            ) == rank_insert(head.drop_last(), e, base_fee) + sorted.skip(pos - 1));
        }
        pos = pos - 1;
    }
    proof {
        let head = sorted.take(pos as int);
        if pos > 0 {
            assert(head.last() == ev[order@[pos - 1] as int]);
        }
        assert(rank_insert(head, e, base_fee) == head.push(e));
    }
    order.insert(pos, idx);
    proof {
        assert(picks(order@, ev) == sorted.take(pos as int).push(e) + sorted.skip(pos as int));
    }
}

impl TransactionPool {
    /// An empty pool with the limits `config`, for a next block with the
    /// base fee `base_fee`.
    pub fn new(config: PoolConfig, base_fee: u64) -> (out: TransactionPool)
        ensures
            out@.wf(),
            out@.entries == Seq::<EntryView>::empty(),
            out@.base_fee == base_fee,
            out@.next_arrival == 0,
            out@.config == config,
    {
        let out = TransactionPool { entries: Vec::new(), base_fee, next_arrival: 0, config };
        proof {
            assert(out@.entries =~= Seq::<EntryView>::empty());
        }
        out
    }

    /// The number of queued transactions.
    pub fn len(&self) -> (n: usize)
        ensures
            n == self@.entries.len(),
    {
        self.entries.len()
    }

    /// The base fee of the next block.
    pub fn base_fee(&self) -> (out: u64)
        ensures
            out == self@.base_fee,
    {
        self.base_fee
    }

    fn find_hash(&self, hash: &B256) -> (out: Option<usize>)
        requires
            self@.wf(),
        ensures
            out.is_some() == has_hash(self@.entries, *hash),
            out matches Some(i) ==> i < self@.entries.len() && hash_index(self@.entries, *hash) == i
                && self@.entries[i as int].tx.hash == *hash,
    {
        let mut i: usize = 0;
        while i < self.entries.len()
            invariant
                i <= self.entries.len(),
                self@.wf(),
                forall|j: int| 0 <= j < i ==> (#[trigger] self@.entries[j]).tx.hash != *hash,
            decreases self.entries.len() - i,
        {
            proof {
                assert(self@.entries[i as int] == self.entries@[i as int]@);
            }
            if self.entries[i].tx.hash == *hash {
                proof {
                    let c = hash_index(self@.entries, *hash);
                    if c < i {
                        assert(apart()(self@.entries[c], self@.entries[i as int]));
                    } else if i < c {
                        assert(apart()(self@.entries[i as int], self@.entries[c]));
                    }
                }
                return Some(i);
            }
            i = i + 1;
        }
        None
    }

    fn find_slot(&self, sender: &Address, nonce: u64) -> (out: Option<usize>)
        requires
            self@.wf(),
        ensures
            out.is_some() == has_slot(self@.entries, *sender, nonce),
            out matches Some(i) ==> i < self@.entries.len() && slot_index(
                self@.entries,
                *sender,
                nonce,
            ) == i && same_slot(self@.entries[i as int], *sender, nonce) && self@.entries.filter(
                other_slots(*sender, nonce),
            ) == self@.entries.remove(i as int),
            out.is_none() ==> self@.entries.filter(other_slots(*sender, nonce)) == self@.entries,
    {
        let mut i: usize = 0;
        while i < self.entries.len()
            invariant
                i <= self.entries.len(),
                self@.wf(),
                forall|j: int| 0 <= j < i ==> !same_slot(#[trigger] self@.entries[j], *sender, nonce),
            decreases self.entries.len() - i,
        {
            proof {
                assert(self@.entries[i as int] == self.entries@[i as int]@);
            }
            if self.entries[i].tx.sender == *sender && self.entries[i].tx.nonce == nonce {
                proof {
                    let s = self@.entries;
                    let pred = other_slots(*sender, nonce);
                    let c = slot_index(s, *sender, nonce);
                    if c < i {
                        assert(apart()(s[c], s[i as int]));
                    } else if i < c {
                        assert(apart()(s[i as int], s[c]));
                    }
                    assert forall|j: int| 0 <= j < s.len() && j != i implies pred(
                        #[trigger] s[j],
                    ) by {
                        if j < i {
                            assert(apart()(s[j], s[i as int]));
                        } else {
                            assert(apart()(s[i as int], s[j]));
                        }
                    }
                    lemma_filter_drops_one(s, pred, i as int);
                }
                return Some(i);
            }
            i = i + 1;
        }
        proof {
            let s = self@.entries;
            let pred = other_slots(*sender, nonce);
            assert forall|j: int| 0 <= j < s.len() implies pred(#[trigger] s[j]) by {}
            lemma_filter_keeps_all(s, pred);
        }
        None
    }

    /// Whether a transaction with the hash `hash` is queued.
    pub fn contains(&self, hash: &B256) -> (out: bool)
        requires
            self@.wf(),
        ensures
            out == has_hash(self@.entries, *hash),
    {
        self.find_hash(hash).is_some()
    }

    /// Whether the queued transaction with the hash `hash` is ranked or held.
    pub fn status_of(&self, hash: &B256) -> (out: Option<TxStatus>)
        requires
            self@.wf(),
        ensures
            out.is_some() == has_hash(self@.entries, *hash),
            out matches Some(status) ==> status == self@.entries[hash_index(
                self@.entries,
                *hash,
            )].status,
    {
        match self.find_hash(hash) {
            Some(i) => {
                proof {
                    assert(self@.entries[i as int] == self.entries@[i as int]@);
                }
                Some(self.entries[i].status)
            },
            None => None,
        }
    }

    /// Why `tx` would not be taken in, if it would not.
    fn admission(&self, tx: &PooledTransaction, nonce: u64, balance: u128, bounded: bool) -> (out:
        Option<RejectReason>)
        requires
            self@.wf(),
        ensures
            out == self@.admission(tx@, nonce, balance, bounded),
    {
        match validate(tx, nonce, balance, &self.config) {
            Some(reason) => {
                return Some(RejectReason::ValidationFailed { reason });
            },
            None => {},
        }
        if self.find_hash(&tx.hash).is_some() {
            return Some(RejectReason::AlreadyKnown);
        }
        if self.next_arrival == u64::MAX {
            return Some(RejectReason::PoolFull);
        }
        match self.find_slot(&tx.sender, tx.nonce) {
            Some(i) => {
                proof {
                    assert(self@.entries[i as int] == self.entries@[i as int]@);
                }
                let old_tip = tip_of(self.entries[i].tx.fee_cap, self.base_fee);
                let new_tip = tip_of(tx.fee_cap, self.base_fee);
                if outbids_by(new_tip, old_tip, self.config.min_bump_percent) {
                    None
                } else {
                    Some(RejectReason::Underpriced)
                }
            },
            None => {
                if bounded && self.entries.len() >= self.config.max_size {
                    Some(RejectReason::PoolFull)
                } else {
                    None
                }
            },
        }
    }

    /// Takes `tx` in, in place of the transaction of its sender and nonce.
    fn take_in(&mut self, tx: PooledTransaction, nonce: u64)
        requires
            old(self)@.wf(),
            old(self)@.next_arrival < u64::MAX,
            !has_hash(old(self)@.entries, tx@.hash),
        ensures
            final(self)@.wf(),
            final(self)@ == old(self)@.admitted(tx@, nonce),
    {
        proof {
            lemma_admitted_is_wf(self@, tx@, nonce);
        }
        match self.find_slot(&tx.sender, tx.nonce) {
            Some(i) => {
                self.entries.remove(i);
                proof {
                    assert(entry_views(self.entries@) =~= old(self)@.entries.remove(i as int));
                }
            },
            None => {},
        }
        let ghost rest = entry_views(self.entries@);
        let status = if tx.nonce == nonce {
            TxStatus::Pending
        } else {
            TxStatus::Future
        };
        let entry = PoolEntry { tx, arrival: self.next_arrival, status };
        self.entries.push(entry);
        self.next_arrival = self.next_arrival + 1;
        proof {
            assert(entry_views(self.entries@) =~= rest.push(entry@));
        }
    }

    /// Submits a transaction of a sender whose account has `nonce` and
    /// `balance`.
    ///
    /// The transaction is validated; the first check that fails rejects it.
    /// It is rejected as known where its hash is queued, as underpriced where
    /// a transaction of its sender and nonce is queued and its tip does not
    /// exceed that one's by the minimum bump, and where the pool is full.
    /// Otherwise it is queued, last in the order of arrival, in place of the
    /// transaction of its sender and nonce if there is one; it is ranked
    /// where its nonce is the account's, and held where it lies above.
    pub fn submit(&mut self, tx: PooledTransaction, nonce: u64, balance: u128) -> (out: Result<
        B256,
        RejectReason,
    >)
        requires
            old(self)@.wf(),
        ensures
            final(self)@.wf(),
            final(self)@ == old(self)@.submitted(tx@, nonce, balance),
            out == match old(self)@.admission(tx@, nonce, balance, true) {
                Some(reason) => Err::<B256, RejectReason>(reason),
                None => Ok::<B256, RejectReason>(tx.hash),
            },
    {
        match self.admission(&tx, nonce, balance, true) {
            Some(reason) => Err(reason),
            None => {
                let hash = tx.hash;
                self.take_in(tx, nonce);
                Ok(hash)
            },
        }
    }

    /// The ranked transactions, best first: by descending tip, and by order
    /// of arrival among those of equal tip. Held transactions are left out.
    pub fn pending(&self) -> (out: Vec<PooledTransaction>)
        requires
            self@.wf(),
        ensures
            tx_views(out@) == entry_txs(self@.ranked()),
    {
        let ghost ev = entry_views(self.entries@);
        let mut order: Vec<usize> = Vec::new();
        let mut i: usize = 0;
        proof {
            assert(picks(order@, ev) =~= ranking(ev.take(0), self.base_fee));
        }
        while i < self.entries.len()
            invariant
                i <= self.entries.len(),
                ev == entry_views(self.entries@),
                forall|k: int| 0 <= k < order@.len() ==> #[trigger] order@[k] < self.entries.len(),
                picks(order@, ev) == ranking(ev.take(i as int), self.base_fee),
            decreases self.entries.len() - i,
        {
            proof {
                assert(ev.take(i + 1).drop_last() == ev.take(i as int));
                assert(ev.take(i + 1).last() == ev[i as int]);
                assert(ev[i as int] == self.entries@[i as int]@);
            }
            match self.entries[i].status {
                TxStatus::Pending => {
                    rank_into(&mut order, &self.entries, i, self.base_fee);
                },
                TxStatus::Future => {},
            }
            i = i + 1;
        }
        proof {
            assert(ev.take(i as int) == ev);
        }
        let ghost ranked = picks(order@, ev);
        let mut out: Vec<PooledTransaction> = Vec::new();
        let mut k: usize = 0;
        while k < order.len()
            invariant
                k <= order.len(),
                out@.len() == k,
                ranked.len() == order@.len(),
                ev == entry_views(self.entries@),
                ranked == picks(order@, ev),
                forall|m: int| 0 <= m < order@.len() ==> #[trigger] order@[m] < self.entries.len(),
                tx_views(out@) == entry_txs(ranked.take(k as int)),
            decreases order.len() - k,
        {
            let idx = order[k];
            let copy = self.entries[idx].tx.duplicate();
            proof {
                assert(ev[idx as int] == self.entries@[idx as int]@);
                assert(ranked[k as int] == ev[idx as int]);
            }
            let ghost earlier = out@;
            out.push(copy);
            proof {
                let want = entry_txs(ranked.take(k + 1));
                assert forall|m: int| 0 <= m < want.len() implies tx_views(out@)[m] == want[m] by {
                    if m < k {
                        assert(out@[m] == earlier[m]);
                        assert(tx_views(earlier)[m] == entry_txs(ranked.take(k as int))[m]);
                    } else {
                        assert(out@[m]@ == self.entries@[idx as int].tx@);
                    }
                }
                assert(tx_views(out@) =~= want);
            }
            k = k + 1;
        }
        proof {
            assert(ranked.take(k as int) == ranked);
        }
        out
    }
}

/// What a change of the canonical chain means to the pool.
#[derive(Clone, Debug, PartialEq, Eq)]
pub struct ChainUpdate {
    /// The hashes of the transactions of the adopted blocks.
    pub mined: Vec<B256>,
    /// The transactions of the discarded blocks (none for a commit).
    pub unmined: Vec<PooledTransaction>,
    /// The accounts, at the new head, of the senders that the change touched.
    pub accounts: Vec<AccountState>,
    /// The base fee of the block after the new head.
    pub base_fee: u64,
}

impl View for ChainUpdate {
    type V = UpdateView;

    open spec fn view(&self) -> UpdateView {
        UpdateView {
            mined: self.mined@,
            unmined: tx_views(self.unmined@),
            accounts: self.accounts@,
            base_fee: self.base_fee,
        }
    }
}

/// What became of transactions when the canonical chain changed, by hash.
#[derive(Clone, Debug, PartialEq, Eq)]
pub struct PoolChanges {
    /// Queued transactions that an adopted block included.
    pub included: Vec<B256>,
    /// Queued transactions that no longer pass validation.
    pub discarded: Vec<B256>,
    /// Transactions of discarded blocks that were queued again.
    pub requeued: Vec<B256>,
}

/// Whether `hash` is one of `hashes`.
pub fn contains_hash(hashes: &Vec<B256>, hash: &B256) -> (out: bool)
    ensures
        out == hashes@.contains(*hash),
{
    let mut i: usize = 0;
    while i < hashes.len()
        invariant
            i <= hashes.len(),
            forall|j: int| 0 <= j < i ==> hashes@[j] != *hash,
        decreases hashes.len() - i,
    {
        if hashes[i] == *hash {
            return true;
        }
        i = i + 1;
    }
    false
}

/// The account of `who` among `accounts`: the first one with that address.
pub fn find_account(accounts: &Vec<AccountState>, who: &Address) -> (out: Option<AccountState>)
    ensures
        out == account_of(accounts@, *who),
{
    let mut i: usize = 0;
    proof {
        assert(accounts@.skip(0) == accounts@);
    }
    while i < accounts.len()
        invariant
            i <= accounts.len(),
            account_of(accounts@, *who) == account_of(accounts@.skip(i as int), *who),
        decreases accounts.len() - i,
    {
        if accounts[i].address == *who {
            return Some(accounts[i]);
        }
        proof {
            assert(accounts@.skip(i as int).drop_first() == accounts@.skip(i + 1));
        }
        i = i + 1;
    }
    None
}

/// Whether the queued transaction still passes against the account of its
/// sender, and the status that the account gives it.
fn recheck(entry: &PoolEntry, accounts: &Vec<AccountState>) -> (out: Option<TxStatus>)
    ensures
        out.is_some() == still_valid(entry@, accounts@),
        out matches Some(status) ==> status == restated(entry@, accounts@).status,
{
    match find_account(accounts, &entry.tx.sender) {
        None => Some(entry.status),
        Some(a) => {
            if entry.tx.nonce < a.nonce {
                return None;
            }
            match (entry.tx.gas_limit as u128).checked_mul(entry.tx.fee_cap) {
                Some(cost) => {
                    if a.balance < cost {
                        return None;
                    }
                },
                None => {
                    return None;
                },
            }
            if entry.tx.nonce == a.nonce {
                Some(TxStatus::Pending)
            } else {
                Some(TxStatus::Future)
            }
        },
    }
}

/// A change of the chain keeps the pool well formed, whatever it includes
/// and whatever the accounts have become.
pub proof fn lemma_change_keeps_wf(v: PoolView, u: UpdateView)
    requires
        v.wf(),
    ensures
        v.without_mined(u).wf(),
        v.revalidated(u).wf(),
{
    lemma_filter_keeps_pairwise(v.entries, not_mined(u.mined), apart());
    let kept = v.without_mined(u).entries;
    assert forall|i: int| 0 <= i < kept.len() implies (#[trigger] kept[i]).arrival
        < v.next_arrival by {
        assert(v.entries.contains(kept[i]));
    }
    lemma_filter_keeps_pairwise(v.entries, passes(u.accounts), apart());
    let valid = v.entries.filter(passes(u.accounts));
    let out = v.revalidated(u).entries;
    assert forall|i: int| 0 <= i < out.len() implies (#[trigger] out[i]).arrival
        < v.next_arrival by {
        assert(out[i] == restated(valid[i], u.accounts));
        assert(v.entries.contains(valid[i]));
    }
    assert forall|i: int, j: int| 0 <= i < j < out.len() implies apart()(
        #[trigger] out[i],
        #[trigger] out[j],
    ) by {
        assert(out[i] == restated(valid[i], u.accounts));
        assert(out[j] == restated(valid[j], u.accounts));
        assert(apart()(valid[i], valid[j]));
    }
}

/// Queueing the transactions of discarded blocks again keeps the pool well
/// formed.
pub proof fn lemma_requeue_keeps_wf(v: PoolView, unmined: Seq<TxView>, u: UpdateView)
    requires
        v.wf(),
    ensures
        requeue_all(v, unmined, u).wf(),
    decreases unmined.len(),
{
    if unmined.len() > 0 {
        lemma_requeue_keeps_wf(v, unmined.drop_last(), u);
        let before = requeue_all(v, unmined.drop_last(), u);
        let tx = unmined.last();
        if comes_back(before, tx, u) {
            lemma_admitted_is_wf(before, tx, account_of(u.accounts, tx.sender).unwrap().nonce);
        }
    }
}

impl TransactionPool {
    /// Removes the transactions that the adopted blocks included and returns
    /// their hashes.
    fn remove_mined(&mut self, update: &ChainUpdate) -> (included: Vec<B256>)
        requires
            old(self)@.wf(),
        ensures
            final(self)@ == old(self)@.without_mined(update@),
            included@ == old(self)@.included(update@),
    {
        let ghost start = self@.entries;
        let ghost keep = not_mined(update@.mined);
        let ghost gone = is_mined(update@.mined);
        let total = self.entries.len();
        let mut included: Vec<B256> = Vec::new();
        let mut i: usize = 0;
        let mut seen: usize = 0;
        proof {
            reveal(Seq::filter);
            assert(start.take(0).filter(keep) + start.skip(0) == start);
            assert(start.take(0).filter(gone).map_values(entry_hash()) == included@);
        }
        while seen < total
            invariant
                seen <= total,
                total == start.len(),
                keep == not_mined(update@.mined),
                gone == is_mined(update@.mined),
                self.base_fee == old(self).base_fee,
                self.next_arrival == old(self).next_arrival,
                self.config == old(self).config,
                i == start.take(seen as int).filter(keep).len(),
                self.entries@.len() == i + (total - seen),
                entry_views(self.entries@) == start.take(seen as int).filter(keep) + start.skip(
                    seen as int,
                ),
                included@ == start.take(seen as int).filter(gone).map_values(entry_hash()),
            decreases total - seen,
        {
            proof {
                let head = start.take(seen as int);
                assert(start.take(seen + 1) == head.push(start[seen as int]));
                head.lemma_filter_push(start[seen as int], keep);
                head.lemma_filter_push(start[seen as int], gone);
                assert(entry_views(self.entries@)[i as int] == start[seen as int]);
                assert(entry_views(self.entries@)[i as int] == self.entries@[i as int]@);
            }
            let hash = self.entries[i].tx.hash;
            if contains_hash(&update.mined, &hash) {
                let ghost before = entry_views(self.entries@);
                self.entries.remove(i);
                included.push(hash);
                proof {
                    let head = start.take(seen as int);
                    assert(entry_views(self.entries@) =~= before.remove(i as int));
                    assert(entry_views(self.entries@) =~= head.filter(keep) + start.skip(
                        seen + 1,
                    ));
                    assert(head.filter(gone).push(start[seen as int]).map_values(entry_hash())
                        =~= head.filter(gone).map_values(entry_hash()).push(hash));
                }
            } else {
                proof {
                    let head = start.take(seen as int);
                    assert(entry_views(self.entries@) =~= head.filter(keep).push(
                        start[seen as int],
                    ) + start.skip(seen + 1));
                }
                i = i + 1;
            }
            seen = seen + 1;
        }
        proof {
            assert(start.take(total as int) == start);
            assert(entry_views(self.entries@) =~= start.filter(keep));
        }
        included
    }

    /// Validates the queued transactions again, against the accounts at the
    /// new head, and takes the base fee of the next block. Returns the hashes
    /// of the transactions that no longer pass, which leave the pool.
    fn revalidate(&mut self, update: &ChainUpdate) -> (discarded: Vec<B256>)
        requires
            old(self)@.wf(),
        ensures
            final(self)@ == old(self)@.revalidated(update@),
            discarded@ == old(self)@.entries.filter(fails(update@.accounts)).map_values(
                entry_hash(),
            ),
    {
        let ghost start = self@.entries;
        let ghost keep = passes(update@.accounts);
        let ghost gone = fails(update@.accounts);
        let ghost shape = restate(update@.accounts);
        let total = self.entries.len();
        let mut discarded: Vec<B256> = Vec::new();
        let mut i: usize = 0;
        let mut seen: usize = 0;
        proof {
            reveal(Seq::filter);
            assert(start.take(0).filter(keep).map_values(shape) + start.skip(0) == start);
            assert(start.take(0).filter(gone).map_values(entry_hash()) == discarded@);
        }
        while seen < total
            invariant
                seen <= total,
                total == start.len(),
                keep == passes(update@.accounts),
                gone == fails(update@.accounts),
                shape == restate(update@.accounts),
                self.base_fee == old(self).base_fee,
                self.next_arrival == old(self).next_arrival,
                self.config == old(self).config,
                i == start.take(seen as int).filter(keep).len(),
                self.entries@.len() == i + (total - seen),
                entry_views(self.entries@) == start.take(seen as int).filter(keep).map_values(shape)
                    + start.skip(seen as int),
                discarded@ == start.take(seen as int).filter(gone).map_values(entry_hash()),
            decreases total - seen,
        {
            proof {
                let head = start.take(seen as int);
                assert(start.take(seen + 1) == head.push(start[seen as int]));
                head.lemma_filter_push(start[seen as int], keep);
                head.lemma_filter_push(start[seen as int], gone);
                assert(entry_views(self.entries@)[i as int] == start[seen as int]);
                assert(entry_views(self.entries@)[i as int] == self.entries@[i as int]@);
            }
            match recheck(&self.entries[i], &update.accounts) {
                Some(status) => {
                    let ghost before = entry_views(self.entries@);
                    self.entries[i].status = status;
                    proof {
                        let head = start.take(seen as int);
                        assert(self.entries@[i as int]@ == restated(
                            start[seen as int],
                            update@.accounts,
                        ));
                        assert(entry_views(self.entries@) =~= head.filter(keep).push(
                            start[seen as int],
                        ).map_values(shape) + start.skip(seen + 1)) by {
                            let want = head.filter(keep).push(start[seen as int]).map_values(shape)
                                + start.skip(seen + 1);
                            assert forall|k: int| 0 <= k < want.len() implies entry_views(
                                self.entries@,
                            )[k] == want[k] by {
                                if k != i {
                                    assert(entry_views(self.entries@)[k] == before[k]);
                                }
                            }
                        }
                    }
                    i = i + 1;
                },
                None => {
                    let hash = self.entries[i].tx.hash;
                    let ghost before = entry_views(self.entries@);
                    self.entries.remove(i);
                    discarded.push(hash);
                    proof {
                        let head = start.take(seen as int);
                        assert(entry_views(self.entries@) =~= before.remove(i as int));
                        assert(entry_views(self.entries@) =~= head.filter(keep).map_values(shape)
                            + start.skip(seen + 1));
                        assert(head.filter(gone).push(start[seen as int]).map_values(entry_hash())
                            =~= head.filter(gone).map_values(entry_hash()).push(hash));
                    }
                },
            }
            seen = seen + 1;
        }
        self.base_fee = update.base_fee;
        proof {
            assert(start.take(total as int) == start);
            assert(entry_views(self.entries@) =~= start.filter(keep).map_values(shape));
        }
        discarded
    }

    /// Queues the transactions of the discarded blocks again, each as a
    /// submission is taken in but for the size limit, and returns the hashes
    /// of those that were queued.
    fn requeue(&mut self, update: &ChainUpdate) -> (requeued: Vec<B256>)
        requires
            old(self)@.wf(),
        ensures
            final(self)@.wf(),
            final(self)@ == requeue_all(old(self)@, update@.unmined, update@),
            requeued@ == requeued_hashes(old(self)@, update@.unmined, update@),
    {
        let ghost start = self@;
        let ghost u = update@;
        let mut requeued: Vec<B256> = Vec::new();
        let mut k: usize = 0;
        while k < update.unmined.len()
            invariant
                k <= update.unmined.len(),
                u == update@,
                self@.wf(),
                self@ == requeue_all(start, u.unmined.take(k as int), u),
                requeued@ == requeued_hashes(start, u.unmined.take(k as int), u),
            decreases update.unmined.len() - k,
        {
            let tx = &update.unmined[k];
            proof {
                assert(u.unmined.take(k + 1).drop_last() == u.unmined.take(k as int));
                assert(u.unmined.take(k + 1).last() == tx@);
            }
            match find_account(&update.accounts, &tx.sender) {
                Some(a) => {
                    if !contains_hash(&update.mined, &tx.hash) && self.admission(
                        tx,
                        a.nonce,
                        a.balance,
                        false,
                    ).is_none() {
                        self.take_in(tx.duplicate(), a.nonce);
                        requeued.push(tx.hash);
                    }
                },
                None => {},
            }
            k = k + 1;
        }
        proof {
            assert(u.unmined.take(k as int) == u.unmined);
        }
        requeued
    }

    /// Follows a change of the canonical chain.
    ///
    /// The queued transactions that the adopted blocks included leave the
    /// pool. The others are validated again against the accounts at the new
    /// head: a transaction whose nonce lies below the account's, or whose
    /// cost the balance no longer covers, is discarded; the others are ranked
    /// or held as the account's nonce says. Then each transaction of the
    /// discarded blocks that no adopted block included is queued again, if it
    /// passes as a submission does; the size limit does not hold for it.
    pub fn on_canonical_change(&mut self, update: &ChainUpdate) -> (out: PoolChanges)
        requires
            old(self)@.wf(),
        ensures
            final(self)@.wf(),
            final(self)@ == old(self)@.after_change(update@),
            out.included@ == old(self)@.included(update@),
            out.discarded@ == old(self)@.discarded(update@),
            out.requeued@ == old(self)@.requeued(update@),
    {
        proof {
            lemma_change_keeps_wf(self@, update@);
            lemma_change_keeps_wf(self@.without_mined(update@), update@);
        }
        let included = self.remove_mined(update);
        let discarded = self.revalidate(update);
        let requeued = self.requeue(update);
        PoolChanges { included, discarded, requeued }
    }
}

/// Taking a transaction in keeps the pool well formed.
pub proof fn lemma_admitted_is_wf(v: PoolView, tx: TxView, nonce: u64)
    requires
        v.wf(),
        v.next_arrival < u64::MAX,
        !has_hash(v.entries, tx.hash),
    ensures
        v.admitted(tx, nonce).wf(),
{
    let pred = other_slots(tx.sender, tx.nonce);
    let rest = v.entries.filter(pred);
    lemma_filter_keeps_pairwise(v.entries, pred, apart());
    let out = v.admitted(tx, nonce).entries;
    assert forall|i: int| 0 <= i < out.len() implies (#[trigger] out[i]).arrival
        < v.next_arrival + 1 by {
        if i < rest.len() {
            assert(out[i] == rest[i]);
            assert(v.entries.contains(rest[i]));
        }
    }
    assert forall|i: int, j: int| 0 <= i < j < out.len() implies apart()(
        #[trigger] out[i],
        #[trigger] out[j],
    ) by {
        assert(out[i] == rest[i]);
        if j < rest.len() {
            assert(out[j] == rest[j]);
        } else {
            assert(v.entries.contains(rest[i]));
            let m = choose|m: int| 0 <= m < v.entries.len() && v.entries[m] == rest[i];
            assert(v.entries[m].tx.hash != tx.hash);
            assert(pred(rest[i]));
        }
    }
}

} // verus!
