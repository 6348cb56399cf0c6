//! What the rules of the transaction pool entail.

use crate::pool_model::account_of;
use crate::pool_model::apart;
use crate::pool_model::comes_back;
use crate::pool_model::entry_hash;
use crate::pool_model::has_hash;
use crate::pool_model::has_slot;
use crate::pool_model::is_mined;
use crate::pool_model::not_mined;
use crate::pool_model::other_slots;
use crate::pool_model::outranks;
use crate::pool_model::passes;
use crate::pool_model::rank_insert;
use crate::pool_model::ranking;
use crate::pool_model::requeue_all;
use crate::pool_model::requeue_one;
use crate::pool_model::requeued_hashes;
use crate::pool_model::restated;
use crate::pool_model::same_slot;
use crate::pool_model::status_for;
use crate::pool_model::tip;
use crate::pool_model::validation;
use crate::pool_model::EntryView;
use crate::pool_model::PoolView;
use crate::pool_model::RejectReason;
use crate::pool_model::TxStatus;
use crate::pool_model::TxView;
use crate::pool_model::UpdateView;
use crate::seq_lemmas::lemma_filter_holds;
use crate::seq_lemmas::lemma_filter_keeps_pairwise;
use crate::seq_lemmas::pairwise;
use crate::types::B256;
use vstd::prelude::*;

verus! {

/// Each transaction of `r` outranks the ones behind it.
pub open spec fn in_rank_order(r: Seq<EntryView>, base_fee: u64) -> bool {
    forall|i: int, j: int|
        0 <= i < j < r.len() ==> outranks(#[trigger] r[i], #[trigger] r[j], base_fee)
}

proof fn lemma_rank_insert(sorted: Seq<EntryView>, e: EntryView, base_fee: u64)
    requires
        in_rank_order(sorted, base_fee),
        forall|i: int| 0 <= i < sorted.len() ==> (#[trigger] sorted[i]).arrival < e.arrival,
    ensures
        in_rank_order(rank_insert(sorted, e, base_fee), base_fee),
        rank_insert(sorted, e, base_fee).len() == sorted.len() + 1,
        forall|x: EntryView|
            #[trigger] rank_insert(sorted, e, base_fee).contains(x) <==> sorted.contains(x) || x
                == e,
    decreases sorted.len(),
{
    let out = rank_insert(sorted, e, base_fee);
    if sorted.len() == 0 || tip(sorted.last(), base_fee) >= tip(e, base_fee) {
        assert forall|i: int, j: int| 0 <= i < j < out.len() implies outranks(
            #[trigger] out[i],
            #[trigger] out[j],
            base_fee,
        ) by {
            assert(out[i] == sorted[i]);
            if j < sorted.len() {
                assert(out[j] == sorted[j]);
            } else {
                if i < sorted.len() - 1 {
                    assert(outranks(sorted[i], sorted[sorted.len() - 1], base_fee));
                }
            }
        }
        assert forall|x: EntryView| #[trigger] out.contains(x) <==> sorted.contains(x) || x == e by {
            if out.contains(x) {
                let k = choose|k: int| 0 <= k < out.len() && out[k] == x;
                if k < sorted.len() {
                    assert(sorted[k] == x);
                }
            }
            if sorted.contains(x) {
                let k = choose|k: int| 0 <= k < sorted.len() && sorted[k] == x;
                assert(out[k] == x);
            }
            assert(out[sorted.len() as int] == e);
        }
    } else {
        let front = sorted.drop_last();
        let last = sorted.last();
        let inner = rank_insert(front, e, base_fee);
        assert forall|i: int, j: int| 0 <= i < j < front.len() implies outranks(
            #[trigger] front[i],
            #[trigger] front[j],
            base_fee,
        ) by {
            assert(front[i] == sorted[i] && front[j] == sorted[j]);
        }
        assert forall|i: int| 0 <= i < front.len() implies (#[trigger] front[i]).arrival
            < e.arrival by {
            assert(front[i] == sorted[i]);
        }
        lemma_rank_insert(front, e, base_fee);
        assert forall|i: int, j: int| 0 <= i < j < out.len() implies outranks(
            #[trigger] out[i],
            #[trigger] out[j],
            base_fee,
        ) by {
            assert(out[i] == inner[i]);
            if j < inner.len() {
                assert(out[j] == inner[j]);
            } else {
                assert(out[j] == last);
                assert(inner.contains(inner[i]));
                if inner[i] != e {
                    assert(front.contains(inner[i]));
                    let k = choose|k: int| 0 <= k < front.len() && front[k] == inner[i];
                    assert(outranks(sorted[k], sorted[sorted.len() - 1], base_fee));
                }
            }
        }
        assert forall|x: EntryView| #[trigger] out.contains(x) <==> sorted.contains(x) || x == e by {
            if out.contains(x) {
                let k = choose|k: int| 0 <= k < out.len() && out[k] == x;
                if k < inner.len() {
                    assert(inner[k] == x);
                    assert(inner.contains(x));
                    if front.contains(x) {
                        let m = choose|m: int| 0 <= m < front.len() && front[m] == x;
                        assert(sorted[m] == x);
                    }
                } else {
                    assert(sorted[sorted.len() - 1] == x);
                }
            }
            if sorted.contains(x) {
                let k = choose|k: int| 0 <= k < sorted.len() && sorted[k] == x;
                if k < front.len() {
                    assert(front[k] == x);
                    assert(front.contains(x));
                    assert(inner.contains(x));
                    let m = choose|m: int| 0 <= m < inner.len() && inner[m] == x;
                    assert(out[m] == x);
                } else {
                    assert(out[inner.len() as int] == x);
                }
            }
            if x == e {
                assert(inner.contains(e));
                let m = choose|m: int| 0 <= m < inner.len() && inner[m] == e;
                assert(out[m] == e);
            }
        }
    }
}

/// The ranking holds exactly the pending transactions, each before every
/// transaction with a lower tip and before every later one with the same tip.
pub proof fn lemma_ranking_is_ordered(entries: Seq<EntryView>, base_fee: u64)
    requires
        pairwise(entries, apart()),
    ensures
        in_rank_order(ranking(entries, base_fee), base_fee),
        forall|x: EntryView|
            #[trigger] ranking(entries, base_fee).contains(x) <==> entries.contains(x) && x.status
                == TxStatus::Pending,
    decreases entries.len(),
{
    let out = ranking(entries, base_fee);
    if entries.len() > 0 {
        let front = entries.drop_last();
        let last = entries.last();
        assert forall|i: int, j: int| 0 <= i < j < front.len() implies apart()(
            #[trigger] front[i],
            #[trigger] front[j],
        ) by {
            assert(front[i] == entries[i] && front[j] == entries[j]);
        }
        lemma_ranking_is_ordered(front, base_fee);
        let inner = ranking(front, base_fee);
        if last.status == TxStatus::Pending {
            assert forall|i: int| 0 <= i < inner.len() implies (#[trigger] inner[i]).arrival
                < last.arrival by {
                assert(inner.contains(inner[i]));
                assert(front.contains(inner[i]));
                let k = choose|k: int| 0 <= k < front.len() && front[k] == inner[i];
                assert(apart()(entries[k], entries[entries.len() - 1]));
            }
            lemma_rank_insert(inner, last, base_fee);
        }
        assert forall|x: EntryView| #[trigger]
            out.contains(x) <==> entries.contains(x) && x.status == TxStatus::Pending by {
            if front.contains(x) {
                let k = choose|k: int| 0 <= k < front.len() && front[k] == x;
                assert(entries[k] == x);
            }
            if entries.contains(x) {
                let k = choose|k: int| 0 <= k < entries.len() && entries[k] == x;
                if k < front.len() {
                    assert(front[k] == x);
                } else {
                    assert(x == last);
                }
            }
            assert(entries[entries.len() - 1] == last);
        }
    }
}

/// No queued transaction has a hash that an adopted block included.
pub open spec fn clear_of(entries: Seq<EntryView>, mined: Seq<B256>) -> bool {
    forall|i: int| 0 <= i < entries.len() ==> !mined.contains((#[trigger] entries[i]).tx.hash)
}

proof fn lemma_requeue_stays_clear(v: PoolView, unmined: Seq<TxView>, u: UpdateView)
    requires
        v.wf(),
        clear_of(v.entries, u.mined),
    ensures
        clear_of(requeue_all(v, unmined, u).entries, u.mined),
    decreases unmined.len(),
{
    if unmined.len() > 0 {
        let before = requeue_all(v, unmined.drop_last(), u);
        lemma_requeue_stays_clear(v, unmined.drop_last(), u);
        crate::pool::lemma_requeue_keeps_wf(v, unmined.drop_last(), u);
        let tx = unmined.last();
        if comes_back(before, tx, u) {
            let pred = other_slots(tx.sender, tx.nonce);
            let rest = before.entries.filter(pred);
            lemma_filter_keeps_pairwise(before.entries, pred, apart());
            let out = requeue_one(before, tx, u).entries;
            assert forall|i: int| 0 <= i < out.len() implies !u.mined.contains(
                (#[trigger] out[i]).tx.hash,
            ) by {
                if i < rest.len() {
                    assert(out[i] == rest[i]);
                    assert(before.entries.contains(rest[i]));
                    let m = choose|m: int|
                        0 <= m < before.entries.len() && before.entries[m] == rest[i];
                    assert(!u.mined.contains(before.entries[m].tx.hash));
                }
            }
        }
    }
}

/// A transaction whose hash an adopted block included is not queued after
/// the change and is not ranked; if it was queued before, it is among those
/// that the change included.
pub proof fn lemma_included_leaves(v: PoolView, u: UpdateView, h: B256)
    requires
        v.wf(),
        u.mined.contains(h),
    ensures
        !has_hash(v.after_change(u).entries, h),
        forall|k: int|
            0 <= k < v.after_change(u).ranked().len() ==> (#[trigger] v.after_change(
                u,
            ).ranked()[k]).tx.hash != h,
        has_hash(v.entries, h) ==> v.included(u).contains(h),
{
    crate::pool::lemma_change_keeps_wf(v, u);
    let kept = v.without_mined(u);
    crate::pool::lemma_change_keeps_wf(kept, u);
    let base = kept.revalidated(u);
    lemma_filter_keeps_pairwise(v.entries, not_mined(u.mined), apart());
    lemma_filter_keeps_pairwise(kept.entries, passes(u.accounts), apart());
    let valid = kept.entries.filter(passes(u.accounts));
    assert forall|i: int| 0 <= i < base.entries.len() implies !u.mined.contains(
        (#[trigger] base.entries[i]).tx.hash,
    ) by {
        assert(base.entries[i] == restated(valid[i], u.accounts));
        assert(kept.entries.contains(valid[i]));
        let m = choose|m: int| 0 <= m < kept.entries.len() && kept.entries[m] == valid[i];
        assert(not_mined(u.mined)(kept.entries[m]));
    }
    lemma_requeue_stays_clear(base, u.unmined, u);
    crate::pool::lemma_requeue_keeps_wf(base, u.unmined, u);
    let after = v.after_change(u);
    lemma_ranking_is_ordered(after.entries, after.base_fee);
    assert forall|k: int| 0 <= k < after.ranked().len() implies (#[trigger] after.ranked()[k]).tx.hash
        != h by {
        let x = after.ranked()[k];
        assert(after.ranked().contains(x));
        assert(after.entries.contains(x));
        let m = choose|m: int| 0 <= m < after.entries.len() && after.entries[m] == x;
        assert(!u.mined.contains(after.entries[m].tx.hash));
    }
    if has_hash(v.entries, h) {
        let i = choose|i: int| 0 <= i < v.entries.len() && (#[trigger] v.entries[i]).tx.hash == h;
        let gone = v.entries.filter(is_mined(u.mined));
        assert(v.entries.contains(v.entries[i]));
        lemma_filter_holds(v.entries, is_mined(u.mined), v.entries[i]);
        let m = choose|m: int| 0 <= m < gone.len() && gone[m] == v.entries[i];
        assert(gone.map_values(entry_hash())[m] == h);
    }
}

/// A valid transaction that was submitted is queued, unless the submission
/// was refused as underpriced or because the pool was full; once a block
/// that includes it is adopted, it is among the included transactions, is
/// no longer queued, and is not ranked.
pub proof fn lemma_submitted_then_included(
    v: PoolView,
    tx: TxView,
    nonce: u64,
    balance: u128,
    u: UpdateView,
)
    requires
        v.wf(),
        validation(tx, nonce, balance, v.config).is_none(),
        v.admission(tx, nonce, balance, true) != Some(RejectReason::Underpriced),
        v.admission(tx, nonce, balance, true) != Some(RejectReason::PoolFull),
        u.mined.contains(tx.hash),
    ensures
        v.submitted(tx, nonce, balance).wf(),
        has_hash(v.submitted(tx, nonce, balance).entries, tx.hash),
        v.submitted(tx, nonce, balance).included(u).contains(tx.hash),
        !has_hash(v.submitted(tx, nonce, balance).after_change(u).entries, tx.hash),
        forall|k: int|
            0 <= k < v.submitted(tx, nonce, balance).after_change(u).ranked().len() ==> (
            #[trigger] v.submitted(tx, nonce, balance).after_change(u).ranked()[k]).tx.hash
                != tx.hash,
{
    let s = v.submitted(tx, nonce, balance);
    if v.admission(tx, nonce, balance, true).is_none() {
        crate::pool::lemma_admitted_is_wf(v, tx, nonce);
        assert(s.entries[s.entries.len() - 1].tx.hash == tx.hash);
    } else {
        assert(v.admission(tx, nonce, balance, true) == Some(RejectReason::AlreadyKnown));
    }
    lemma_included_leaves(s, u, tx.hash);
}

/// `e` differs from `tx` in hash and in sender or nonce.
pub open spec fn foreign(e: TxView, tx: TxView) -> bool {
    e.hash != tx.hash && !(e.sender == tx.sender && e.nonce == tx.nonce)
}

/// Every queued transaction differs from `tx` in hash and in sender or nonce.
pub open spec fn all_foreign(entries: Seq<EntryView>, tx: TxView) -> bool {
    forall|i: int| 0 <= i < entries.len() ==> foreign((#[trigger] entries[i]).tx, tx)
}

/// `tx` is queued with the status `status`.
pub open spec fn holds_tx(entries: Seq<EntryView>, tx: TxView, status: TxStatus) -> bool {
    exists|i: int| 0 <= i < entries.len() && (#[trigger] entries[i]).tx == tx && entries[i].status == status
}

proof fn lemma_requeue_foreign(v: PoolView, pre: Seq<TxView>, u: UpdateView, tx: TxView)
    requires
        v.wf(),
        all_foreign(v.entries, tx),
        forall|j: int| 0 <= j < pre.len() ==> foreign(#[trigger] pre[j], tx),
    ensures
        requeue_all(v, pre, u).wf(),
        all_foreign(requeue_all(v, pre, u).entries, tx),
        requeue_all(v, pre, u).next_arrival <= v.next_arrival + pre.len(),
        requeue_all(v, pre, u).config == v.config,
        requeue_all(v, pre, u).base_fee == v.base_fee,
    decreases pre.len(),
{
    crate::pool::lemma_requeue_keeps_wf(v, pre, u);
    if pre.len() > 0 {
        let front = pre.drop_last();
        assert forall|j: int| 0 <= j < front.len() implies foreign(#[trigger] front[j], tx) by {
            assert(front[j] == pre[j]);
        }
        lemma_requeue_foreign(v, front, u, tx);
        let before = requeue_all(v, front, u);
        let other = pre.last();
        assert(foreign(pre[pre.len() - 1], tx));
        if comes_back(before, other, u) {
            let pred = other_slots(other.sender, other.nonce);
            let rest = before.entries.filter(pred);
            lemma_filter_keeps_pairwise(before.entries, pred, apart());
            let out = requeue_one(before, other, u).entries;
            assert forall|i: int| 0 <= i < out.len() implies foreign((#[trigger] out[i]).tx, tx) by {
                if i < rest.len() {
                    assert(out[i] == rest[i]);
                    assert(before.entries.contains(rest[i]));
                    let m = choose|m: int|
                        0 <= m < before.entries.len() && before.entries[m] == rest[i];
                    assert(foreign(before.entries[m].tx, tx));
                }
            }
        }
    }
}

proof fn lemma_requeue_holds(v: PoolView, pre: Seq<TxView>, u: UpdateView, k: int)
    requires
        v.wf(),
        0 <= k < pre.len(),
        comes_back(requeue_all(v, pre.take(k), u), pre[k], u),
        forall|j: int|
            k < j < pre.len() ==> !((#[trigger] pre[j]).sender == pre[k].sender && pre[j].nonce
                == pre[k].nonce),
    ensures
        holds_tx(
            requeue_all(v, pre, u).entries,
            pre[k],
            status_for(pre[k].nonce, account_of(u.accounts, pre[k].sender).unwrap().nonce),
        ),
        requeued_hashes(v, pre, u).contains(pre[k].hash),
    decreases pre.len(),
{
    let tx = pre[k];
    let a = account_of(u.accounts, tx.sender).unwrap();
    let status = status_for(tx.nonce, a.nonce);
    let front = pre.drop_last();
    let before = requeue_all(v, front, u);
    let after = requeue_all(v, pre, u);
    if k == pre.len() - 1 {
        assert(pre.take(k) == front);
        let out = after.entries;
        assert(out[out.len() - 1].tx == tx && out[out.len() - 1].status == status);
        let hashes = requeued_hashes(v, pre, u);
        assert(hashes[hashes.len() - 1] == tx.hash);
    } else {
        assert(front[k] == tx);
        assert(front.take(k) == pre.take(k));
        assert forall|j: int| k < j < front.len() implies !((#[trigger] front[j]).sender
            == front[k].sender && front[j].nonce == front[k].nonce) by {
            assert(front[j] == pre[j]);
        }
        lemma_requeue_holds(v, front, u, k);
        let other = pre.last();
        assert(other == pre[pre.len() - 1]);
        let i = choose|i: int|
            0 <= i < before.entries.len() && (#[trigger] before.entries[i]).tx == tx
                && before.entries[i].status == status;
        let e = before.entries[i];
        let earlier = requeued_hashes(v, front, u);
        let m = choose|m: int| 0 <= m < earlier.len() && earlier[m] == tx.hash;
        if comes_back(before, other, u) {
            let pred = other_slots(other.sender, other.nonce);
            assert(before.entries.contains(e));
            lemma_filter_holds(before.entries, pred, e);
            let rest = before.entries.filter(pred);
            let p = choose|p: int| 0 <= p < rest.len() && rest[p] == e;
            assert(after.entries[p] == e);
            assert(requeued_hashes(v, pre, u)[m] == tx.hash);
        } else {
            assert(after.entries[i] == e);
            assert(requeued_hashes(v, pre, u)[m] == tx.hash);
        }
    }
}

/// A transaction of a discarded block is queued again, and is ranked where
/// its nonce is the account's, if it is taken in when its turn comes (no
/// adopted block included it, it passes validation against the account of its
/// sender at the new head, and no queued transaction stands in its way) and
/// no later transaction of the discarded blocks has its sender and nonce.
pub proof fn lemma_unmined_comes_back(v: PoolView, u: UpdateView, k: int)
    requires
        v.wf(),
        0 <= k < u.unmined.len(),
        comes_back(
            requeue_all(v.without_mined(u).revalidated(u), u.unmined.take(k), u),
            u.unmined[k],
            u,
        ),
        forall|j: int|
            k < j < u.unmined.len() ==> !((#[trigger] u.unmined[j]).sender == u.unmined[k].sender
                && u.unmined[j].nonce == u.unmined[k].nonce),
    ensures
        holds_tx(
            v.after_change(u).entries,
            u.unmined[k],
            status_for(u.unmined[k].nonce, account_of(u.accounts, u.unmined[k].sender).unwrap().nonce),
        ),
        has_hash(v.after_change(u).entries, u.unmined[k].hash),
        v.requeued(u).contains(u.unmined[k].hash),
        u.unmined[k].nonce == account_of(u.accounts, u.unmined[k].sender).unwrap().nonce
            ==> exists|p: int|
            0 <= p < v.after_change(u).ranked().len() && (#[trigger] v.after_change(
                u,
            ).ranked()[p]).tx == u.unmined[k],
{
    let tx = u.unmined[k];
    let a = account_of(u.accounts, tx.sender).unwrap();
    let status = status_for(tx.nonce, a.nonce);
    crate::pool::lemma_change_keeps_wf(v, u);
    let kept = v.without_mined(u);
    crate::pool::lemma_change_keeps_wf(kept, u);
    let base = kept.revalidated(u);
    lemma_requeue_holds(base, u.unmined, u, k);
    let after = v.after_change(u);
    let i = choose|i: int|
        0 <= i < after.entries.len() && (#[trigger] after.entries[i]).tx == tx
            && after.entries[i].status == status;
    assert(after.entries[i].tx.hash == tx.hash);
    if tx.nonce == a.nonce {
        crate::pool::lemma_requeue_keeps_wf(base, u.unmined, u);
        lemma_ranking_is_ordered(after.entries, after.base_fee);
        assert(after.entries.contains(after.entries[i]));
        assert(after.ranked().contains(after.entries[i]));
        let p = choose|p: int| 0 <= p < after.ranked().len() && after.ranked()[p] == after.entries[i];
        assert(after.ranked()[p].tx == tx);
    }
}

/// A transaction of a discarded block that no adopted block included is
/// queued again where it still passes validation against the account of its
/// sender at the new head, and is ranked where its nonce is the account's,
/// if it competes with no other: no queued transaction and no other
/// transaction of the discarded blocks has its hash or its sender and nonce.
pub proof fn lemma_unrivalled_unmined_comes_back(v: PoolView, u: UpdateView, k: int)
    requires
        v.wf(),
        0 <= k < u.unmined.len(),
        all_foreign(v.entries, u.unmined[k]),
        forall|j: int|
            0 <= j < u.unmined.len() && j != k ==> foreign(#[trigger] u.unmined[j], u.unmined[k]),
        v.next_arrival + u.unmined.len() <= u64::MAX,
        !u.mined.contains(u.unmined[k].hash),
        account_of(u.accounts, u.unmined[k].sender).is_some(),
        validation(
            u.unmined[k],
            account_of(u.accounts, u.unmined[k].sender).unwrap().nonce,
            account_of(u.accounts, u.unmined[k].sender).unwrap().balance,
            v.config,
        ).is_none(),
    ensures
        holds_tx(
            v.after_change(u).entries,
            u.unmined[k],
            status_for(u.unmined[k].nonce, account_of(u.accounts, u.unmined[k].sender).unwrap().nonce),
        ),
        has_hash(v.after_change(u).entries, u.unmined[k].hash),
        v.requeued(u).contains(u.unmined[k].hash),
        u.unmined[k].nonce == account_of(u.accounts, u.unmined[k].sender).unwrap().nonce
            ==> exists|p: int|
            0 <= p < v.after_change(u).ranked().len() && (#[trigger] v.after_change(
                u,
            ).ranked()[p]).tx == u.unmined[k],
{
    let tx = u.unmined[k];
    let a = account_of(u.accounts, tx.sender).unwrap();
    crate::pool::lemma_change_keeps_wf(v, u);
    let kept = v.without_mined(u);
    crate::pool::lemma_change_keeps_wf(kept, u);
    let base = kept.revalidated(u);
    lemma_filter_keeps_pairwise(v.entries, not_mined(u.mined), apart());
    lemma_filter_keeps_pairwise(kept.entries, passes(u.accounts), apart());
    let valid = kept.entries.filter(passes(u.accounts));
    assert forall|i: int| 0 <= i < base.entries.len() implies foreign(
        (#[trigger] base.entries[i]).tx,
        tx,
    ) by {
        assert(base.entries[i] == restated(valid[i], u.accounts));
        assert(kept.entries.contains(valid[i]));
        let m = choose|m: int| 0 <= m < kept.entries.len() && kept.entries[m] == valid[i];
        assert(v.entries.contains(kept.entries[m]));
        let n = choose|n: int| 0 <= n < v.entries.len() && v.entries[n] == kept.entries[m];
        assert(foreign(v.entries[n].tx, tx));
    }
    let pre = u.unmined.take(k);
    assert forall|j: int| 0 <= j < pre.len() implies foreign(#[trigger] pre[j], tx) by {
        assert(pre[j] == u.unmined[j]);
    }
    lemma_requeue_foreign(base, pre, u, tx);
    let before = requeue_all(base, pre, u);
    assert(!has_hash(before.entries, tx.hash)) by {
        if has_hash(before.entries, tx.hash) {
            let i = choose|i: int|
                0 <= i < before.entries.len() && (#[trigger] before.entries[i]).tx.hash == tx.hash;
            assert(foreign(before.entries[i].tx, tx));
        }
    }
    assert(!has_slot(before.entries, tx.sender, tx.nonce)) by {
        if has_slot(before.entries, tx.sender, tx.nonce) {
            let i = choose|i: int|
                0 <= i < before.entries.len() && same_slot(
                    #[trigger] before.entries[i],
                    tx.sender,
                    tx.nonce,
                );
            assert(foreign(before.entries[i].tx, tx));
        }
    }
    assert(comes_back(before, tx, u));
    assert forall|j: int| k < j < u.unmined.len() implies !((#[trigger] u.unmined[j]).sender
        == tx.sender && u.unmined[j].nonce == tx.nonce) by {
        assert(foreign(u.unmined[j], tx));
    }
    lemma_unmined_comes_back(v, u, k);
}

} // verus!
