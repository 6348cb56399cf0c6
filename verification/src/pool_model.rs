//! The rules of the transaction pool, stated over mathematical values.
//!
//! A transaction is validated against the account of its sender, queued with
//! the order of its arrival, and ranked by the tip that it leaves to the
//! block proposer. The pool follows the canonical chain: what a block
//! included leaves the pool, what no longer passes validation is discarded,
//! and what a reorg took out of the chain is queued again.

use crate::seq_lemmas::pairwise;
use crate::types::Address;
use crate::types::B256;
use vstd::prelude::*;

verus! {

/// The account of a sender at the head of the chain.
#[derive(Clone, Copy, Debug, PartialEq, Eq, Structural)]
pub struct AccountState {
    pub address: Address,
    pub nonce: u64,
    pub balance: u128,
}

/// The limits of a pool.
#[derive(Clone, Copy, Debug, PartialEq, Eq, Structural)]
pub struct PoolConfig {
    /// The gas that a block holds at most.
    pub block_gas_limit: u64,
    /// By how many percent the tip of a replacement must exceed the tip of
    /// the transaction that it replaces.
    pub min_bump_percent: u32,
    /// The number of transactions that submissions may fill the pool with.
    pub max_size: usize,
    /// The length that a payload has at most.
    pub max_payload_bytes: usize,
}

/// The check that a transaction fails, in the order of the checks.
#[derive(Clone, Copy, Debug, PartialEq, Eq, Structural)]
pub enum ValidationFailure {
    /// It allows no gas, or its payload is too long.
    Malformed,
    /// The balance of the sender does not cover the gas limit at the fee cap.
    InsufficientBalance,
    /// The nonce lies below the nonce of the sender's account.
    NonceTooLow,
    /// The gas limit lies above what a block holds.
    GasLimitExceeded,
}

/// Why a transaction is not taken into the pool.
#[derive(Clone, Copy, Debug, PartialEq, Eq, Structural)]
pub enum RejectReason {
    ValidationFailed { reason: ValidationFailure },
    /// A transaction of the same sender and nonce is queued, and the tip of
    /// this one does not exceed its tip by the minimum bump.
    Underpriced,
    /// A transaction with this hash is queued already.
    AlreadyKnown,
    /// The pool holds as many transactions as submissions may fill it with.
    PoolFull,
}

/// Whether a queued transaction is ranked for inclusion or held back.
#[derive(Clone, Copy, Debug, PartialEq, Eq, Structural)]
pub enum TxStatus {
    /// Its nonce is the one that the sender's account expects: it is ranked.
    Pending,
    /// Its nonce lies above the one that the account expects: it is held.
    Future,
}

/// The mathematical content of a transaction.
pub struct TxView {
    pub hash: B256,
    pub sender: Address,
    pub nonce: u64,
    pub fee_cap: u128,
    pub gas_limit: u64,
    pub payload: Seq<u8>,
}

/// A queued transaction.
pub struct EntryView {
    pub tx: TxView,
    /// The place of the transaction in the order of arrival.
    pub arrival: u64,
    pub status: TxStatus,
}

/// The mathematical content of a pool.
pub struct PoolView {
    /// The queued transactions, in the order of their arrival.
    pub entries: Seq<EntryView>,
    /// The base fee of the next block.
    pub base_fee: u64,
    /// The place in the order of arrival that the next transaction gets.
    pub next_arrival: nat,
    pub config: PoolConfig,
}

/// What a change of the canonical chain means to the pool.
pub struct UpdateView {
    /// The hashes of the transactions of the adopted blocks.
    pub mined: Seq<B256>,
    /// The transactions of the discarded blocks.
    pub unmined: Seq<TxView>,
    /// The accounts, at the new head, of the senders that the change touched.
    pub accounts: Seq<AccountState>,
    /// The base fee of the block after the new head.
    pub base_fee: u64,
}

/// The most that the transaction can cost its sender.
pub open spec fn max_cost(tx: TxView) -> int {
    tx.gas_limit * tx.fee_cap
}

/// The transaction allows some gas and its payload is not too long.
pub open spec fn well_formed(tx: TxView, config: PoolConfig) -> bool {
    tx.gas_limit > 0 && tx.payload.len() <= config.max_payload_bytes
}

/// The first check that the transaction fails against an account with
/// `nonce` and `balance`, if it fails one.
pub open spec fn validation(tx: TxView, nonce: u64, balance: u128, config: PoolConfig) -> Option<
    ValidationFailure,
> {
    if !well_formed(tx, config) {
        Some(ValidationFailure::Malformed)
    } else if balance < max_cost(tx) {
        Some(ValidationFailure::InsufficientBalance)
    } else if tx.nonce < nonce {
        Some(ValidationFailure::NonceTooLow)
    } else if tx.gas_limit > config.block_gas_limit {
        Some(ValidationFailure::GasLimitExceeded)
    } else {
        None
    }
}

/// A transaction with the nonce that the account expects is ranked; one with
/// a nonce above it is held.
pub open spec fn status_for(tx_nonce: u64, account_nonce: u64) -> TxStatus {
    if tx_nonce == account_nonce {
        TxStatus::Pending
    } else {
        TxStatus::Future
    }
}

/// What a fee cap leaves to the block proposer above the base fee.
pub open spec fn effective_tip(fee_cap: u128, base_fee: u64) -> nat {
    if fee_cap >= base_fee {
        (fee_cap - base_fee) as nat
    } else {
        0
    }
}

/// The tip of a queued transaction.
pub open spec fn tip(e: EntryView, base_fee: u64) -> nat {
    effective_tip(e.tx.fee_cap, base_fee)
}

/// `a` is ranked before `b`: its tip is higher, or equal and it came first.
pub open spec fn outranks(a: EntryView, b: EntryView, base_fee: u64) -> bool {
    tip(a, base_fee) > tip(b, base_fee) || (tip(a, base_fee) == tip(b, base_fee) && a.arrival
        < b.arrival)
}

/// The new tip exceeds the old one by more than `bump` percent of it.
pub open spec fn outbids(new_tip: nat, old_tip: nat, bump: u32) -> bool {
    100 * new_tip > old_tip * (100 + bump)
}

/// `e` is the transaction of `sender` with `nonce`.
pub open spec fn same_slot(e: EntryView, sender: Address, nonce: u64) -> bool {
    e.tx.sender == sender && e.tx.nonce == nonce
}

/// A transaction with the hash `h` is queued.
pub open spec fn has_hash(entries: Seq<EntryView>, h: B256) -> bool {
    exists|i: int| 0 <= i < entries.len() && (#[trigger] entries[i]).tx.hash == h
}

/// Where the transaction with the hash `h` stands.
pub open spec fn hash_index(entries: Seq<EntryView>, h: B256) -> int {
    choose|i: int| 0 <= i < entries.len() && (#[trigger] entries[i]).tx.hash == h
}

/// A transaction of `sender` with `nonce` is queued.
pub open spec fn has_slot(entries: Seq<EntryView>, sender: Address, nonce: u64) -> bool {
    exists|i: int| 0 <= i < entries.len() && same_slot(#[trigger] entries[i], sender, nonce)
}

/// Where the transaction of `sender` with `nonce` stands.
pub open spec fn slot_index(entries: Seq<EntryView>, sender: Address, nonce: u64) -> int {
    choose|i: int| 0 <= i < entries.len() && same_slot(#[trigger] entries[i], sender, nonce)
}

/// The transactions that are not the one of `sender` with `nonce`.
pub open spec fn other_slots(sender: Address, nonce: u64) -> spec_fn(EntryView) -> bool {
    |e: EntryView| !same_slot(e, sender, nonce)
}

/// `a` came before `b`, and they differ in hash and in sender or nonce.
pub open spec fn apart() -> spec_fn(EntryView, EntryView) -> bool {
    |a: EntryView, b: EntryView|
        a.arrival < b.arrival && a.tx.hash != b.tx.hash && !same_slot(a, b.tx.sender, b.tx.nonce)
}

impl PoolView {
    /// The transactions stand in the order of their arrival, no two with the
    /// same hash or with the same sender and nonce.
    pub open spec fn wf(self) -> bool {
        &&& pairwise(self.entries, apart())
        &&& self.next_arrival <= u64::MAX
        &&& forall|i: int|
            0 <= i < self.entries.len() ==> (#[trigger] self.entries[i]).arrival
                < self.next_arrival
    }

    /// Why `tx` is not taken into the pool, if it is not. `bounded` says
    /// whether the size limit holds (it does for submissions).
    pub open spec fn admission(self, tx: TxView, nonce: u64, balance: u128, bounded: bool) -> Option<
        RejectReason,
    > {
        match validation(tx, nonce, balance, self.config) {
            Some(reason) => Some(RejectReason::ValidationFailed { reason }),
            None => if has_hash(self.entries, tx.hash) {
                Some(RejectReason::AlreadyKnown)
            } else if self.next_arrival >= u64::MAX {
                Some(RejectReason::PoolFull)
            } else if has_slot(self.entries, tx.sender, tx.nonce) {
                if outbids(
                    effective_tip(tx.fee_cap, self.base_fee),
                    tip(self.entries[slot_index(self.entries, tx.sender, tx.nonce)], self.base_fee),
                    self.config.min_bump_percent,
                ) {
                    None
                } else {
                    Some(RejectReason::Underpriced)
                }
            } else if bounded && self.entries.len() >= self.config.max_size {
                Some(RejectReason::PoolFull)
            } else {
                None
            },
        }
    }

    /// The pool after `tx` was taken in: it stands last in the order of
    /// arrival, in place of the transaction of its sender and nonce.
    pub open spec fn admitted(self, tx: TxView, nonce: u64) -> PoolView {
        PoolView {
            entries: self.entries.filter(other_slots(tx.sender, tx.nonce)).push(
                EntryView {
                    tx,
                    arrival: self.next_arrival as u64,
                    status: status_for(tx.nonce, nonce),
                },
            ),
            base_fee: self.base_fee,
            next_arrival: self.next_arrival + 1,
            config: self.config,
        }
    }

    /// The pool after `tx` was submitted.
    pub open spec fn submitted(self, tx: TxView, nonce: u64, balance: u128) -> PoolView {
        if self.admission(tx, nonce, balance, true).is_none() {
            self.admitted(tx, nonce)
        } else {
            self
        }
    }

    /// The ranked transactions, best first.
    pub open spec fn ranked(self) -> Seq<EntryView> {
        ranking(self.entries, self.base_fee)
    }
}

/// `e` placed behind the last transaction of `sorted` whose tip is not below
/// its own.
pub open spec fn rank_insert(sorted: Seq<EntryView>, e: EntryView, base_fee: u64) -> Seq<
    EntryView,
>
    decreases sorted.len(),
{
    if sorted.len() == 0 || tip(sorted.last(), base_fee) >= tip(e, base_fee) {
        sorted.push(e)
    } else {
        rank_insert(sorted.drop_last(), e, base_fee).push(sorted.last())
    }
}

/// The pending transactions of `entries`, by descending tip; transactions of
/// equal tip stand in the order of `entries`.
pub open spec fn ranking(entries: Seq<EntryView>, base_fee: u64) -> Seq<EntryView>
    decreases entries.len(),
{
    if entries.len() == 0 {
        entries
    } else if entries.last().status == TxStatus::Pending {
        rank_insert(ranking(entries.drop_last(), base_fee), entries.last(), base_fee)
    } else {
        ranking(entries.drop_last(), base_fee)
    }
}

/// The account of `who` among `accounts`: the first one with that address.
pub open spec fn account_of(accounts: Seq<AccountState>, who: Address) -> Option<AccountState>
    decreases accounts.len(),
{
    if accounts.len() == 0 {
        None
    } else if accounts[0].address == who {
        Some(accounts[0])
    } else {
        account_of(accounts.drop_first(), who)
    }
}

/// The transactions that no adopted block included.
pub open spec fn not_mined(mined: Seq<B256>) -> spec_fn(EntryView) -> bool {
    |e: EntryView| !mined.contains(e.tx.hash)
}

/// The transactions that an adopted block included.
pub open spec fn is_mined(mined: Seq<B256>) -> spec_fn(EntryView) -> bool {
    |e: EntryView| mined.contains(e.tx.hash)
}

/// The transaction still passes against the account of its sender: its nonce
/// is not below the account's and the balance covers its cost. A
/// transaction whose sender the change did not touch passes.
pub open spec fn still_valid(e: EntryView, accounts: Seq<AccountState>) -> bool {
    match account_of(accounts, e.tx.sender) {
        Some(a) => e.tx.nonce >= a.nonce && a.balance >= max_cost(e.tx),
        None => true,
    }
}

/// The transactions that still pass.
pub open spec fn passes(accounts: Seq<AccountState>) -> spec_fn(EntryView) -> bool {
    |e: EntryView| still_valid(e, accounts)
}

/// The transactions that no longer pass.
pub open spec fn fails(accounts: Seq<AccountState>) -> spec_fn(EntryView) -> bool {
    |e: EntryView| !still_valid(e, accounts)
}

/// The transaction with the status that the account of its sender gives it.
pub open spec fn restated(e: EntryView, accounts: Seq<AccountState>) -> EntryView {
    match account_of(accounts, e.tx.sender) {
        Some(a) => EntryView { tx: e.tx, arrival: e.arrival, status: status_for(e.tx.nonce, a.nonce) },
        None => e,
    }
}

/// Gives each transaction the status that the account of its sender gives it.
pub open spec fn restate(accounts: Seq<AccountState>) -> spec_fn(EntryView) -> EntryView {
    |e: EntryView| restated(e, accounts)
}

/// The hash of a queued transaction.
pub open spec fn entry_hash() -> spec_fn(EntryView) -> B256 {
    |e: EntryView| e.tx.hash
}

/// The transaction `tx` of a discarded block is queued again: no adopted
/// block included it, the account of its sender is known, and it is taken
/// in as a submission is, but for the size limit.
pub open spec fn comes_back(v: PoolView, tx: TxView, u: UpdateView) -> bool {
    match account_of(u.accounts, tx.sender) {
        Some(a) => !u.mined.contains(tx.hash) && v.admission(tx, a.nonce, a.balance, false).is_none(),
        None => false,
    }
}

/// The pool after the transaction `tx` of a discarded block was considered.
pub open spec fn requeue_one(v: PoolView, tx: TxView, u: UpdateView) -> PoolView {
    if comes_back(v, tx, u) {
        v.admitted(tx, account_of(u.accounts, tx.sender).unwrap().nonce)
    } else {
        v
    }
}

/// The pool after the transactions `unmined` of the discarded blocks were
/// considered one after the other.
pub open spec fn requeue_all(v: PoolView, unmined: Seq<TxView>, u: UpdateView) -> PoolView
    decreases unmined.len(),
{
    if unmined.len() == 0 {
        v
    } else {
        requeue_one(requeue_all(v, unmined.drop_last(), u), unmined.last(), u)
    }
}

/// The hashes of the transactions of `unmined` that were queued again.
pub open spec fn requeued_hashes(v: PoolView, unmined: Seq<TxView>, u: UpdateView) -> Seq<B256>
    decreases unmined.len(),
{
    if unmined.len() == 0 {
        Seq::empty()
    } else {
        let before = requeued_hashes(v, unmined.drop_last(), u);
        if comes_back(requeue_all(v, unmined.drop_last(), u), unmined.last(), u) {
            before.push(unmined.last().hash)
        } else {
            before
        }
    }
}

impl PoolView {
    /// The pool after the included transactions left it.
    pub open spec fn without_mined(self, u: UpdateView) -> PoolView {
        PoolView {
            entries: self.entries.filter(not_mined(u.mined)),
            base_fee: self.base_fee,
            next_arrival: self.next_arrival,
            config: self.config,
        }
    }

    /// The pool after its transactions were validated again: those that no
    /// longer pass left it, the others have the status that the accounts
    /// give them.
    pub open spec fn revalidated(self, u: UpdateView) -> PoolView {
        PoolView {
            entries: self.entries.filter(passes(u.accounts)).map_values(restate(u.accounts)),
            base_fee: u.base_fee,
            next_arrival: self.next_arrival,
            config: self.config,
        }
    }

    /// The pool after a change of the canonical chain: the included
    /// transactions left, the others were validated again, and the
    /// transactions of the discarded blocks were queued again.
    pub open spec fn after_change(self, u: UpdateView) -> PoolView {
        requeue_all(self.without_mined(u).revalidated(u), u.unmined, u)
    }

    /// The hashes of the transactions that the change included.
    pub open spec fn included(self, u: UpdateView) -> Seq<B256> {
        self.entries.filter(is_mined(u.mined)).map_values(entry_hash())
    }

    /// The hashes of the transactions that the change discarded.
    pub open spec fn discarded(self, u: UpdateView) -> Seq<B256> {
        self.without_mined(u).entries.filter(fails(u.accounts)).map_values(entry_hash())
    }

    /// The hashes of the transactions that the change queued again.
    pub open spec fn requeued(self, u: UpdateView) -> Seq<B256> {
        requeued_hashes(self.without_mined(u).revalidated(u), u.unmined, u)
    }
}

} // verus!
