//! A rolling window of per-block fee samples, ordered by block number.
//!
//! Recording a sample at a height that the window already reached replaces
//! what the window held from that height on, so a reorganization never leaves
//! samples of a discarded branch behind.

use crate::types::ChainNotification;
use crate::types::NotificationView;
use vstd::arithmetic::div_mod::lemma_fundamental_div_mod;
use vstd::arithmetic::div_mod::lemma_fundamental_div_mod_converse;
use vstd::arithmetic::div_mod::lemma_mod_pos_bound;
use vstd::prelude::*;

verus! {

/// The reward (effective priority fee per gas) observed at one percentile of a
/// block's transactions.
#[derive(Clone, Copy, Debug, PartialEq, Eq, Structural)]
pub struct PercentileReward {
    pub percentile: u32,
    pub reward: u128,
}

/// Gas used by a block over its gas limit.
#[derive(Clone, Copy, Debug, PartialEq, Eq, Structural)]
pub struct GasRatio {
    pub used: u64,
    pub limit: u64,
}

/// The fee statistics of one block.
#[derive(Clone, Debug, PartialEq, Eq)]
pub struct FeeSample {
    pub block_number: u64,
    pub base_fee_per_gas: u64,
    pub gas_used_ratio: GasRatio,
    pub reward_percentiles: Vec<PercentileReward>,
}

/// The mathematical content of a [`FeeSample`].
pub struct FeeSampleView {
    pub block_number: u64,
    pub base_fee_per_gas: u64,
    pub gas_used_ratio: GasRatio,
    pub reward_percentiles: Seq<PercentileReward>,
}

impl View for FeeSample {
    type V = FeeSampleView;

    open spec fn view(&self) -> FeeSampleView {
        FeeSampleView {
            block_number: self.block_number,
            base_fee_per_gas: self.base_fee_per_gas,
            gas_used_ratio: self.gas_used_ratio,
            reward_percentiles: self.reward_percentiles@,
        }
    }
}

/// The only way a range query fails.
#[derive(Clone, Copy, Debug, PartialEq, Eq, Structural)]
pub enum FeeHistoryError {
    /// Some block of the requested range has no sample in the window.
    InsufficientHistory,
}

/// The views of a list of samples.
pub open spec fn sample_views(samples: Seq<FeeSample>) -> Seq<FeeSampleView> {
    samples.map_values(|s: FeeSample| s@)
}

/// Percentiles never decrease along `r`.
pub open spec fn ascending(r: Seq<PercentileReward>) -> bool {
    forall|i: int, j: int| 0 <= i < j < r.len() ==> r[i].percentile <= r[j].percentile
}

/// `x` placed behind the last entry of `sorted` whose percentile is not above its own.
pub open spec fn insert_by_percentile(
    sorted: Seq<PercentileReward>,
    x: PercentileReward,
) -> Seq<PercentileReward>
    decreases sorted.len(),
{
    if sorted.len() == 0 || sorted.last().percentile <= x.percentile {
        sorted.push(x)
    } else {
        insert_by_percentile(sorted.drop_last(), x).push(sorted.last())
    }
}

/// `r` in ascending order of percentile; entries of equal percentile keep their order.
pub open spec fn sort_by_percentile(r: Seq<PercentileReward>) -> Seq<PercentileReward>
    decreases r.len(),
{
    if r.len() == 0 {
        r
    } else {
        insert_by_percentile(sort_by_percentile(r.drop_last()), r.last())
    }
}

/// A sample as the window stores it: its rewards in ascending order of percentile.
pub open spec fn normalized(s: FeeSampleView) -> FeeSampleView {
    FeeSampleView {
        block_number: s.block_number,
        base_fee_per_gas: s.base_fee_per_gas,
        gas_used_ratio: s.gas_used_ratio,
        reward_percentiles: sort_by_percentile(s.reward_percentiles),
    }
}

/// Block numbers strictly increase along `s`.
pub open spec fn strictly_rising(s: Seq<FeeSampleView>) -> bool {
    forall|i: int, j: int| 0 <= i < j < s.len() ==> s[i].block_number < s[j].block_number
}

/// What a window of at most `window` samples may hold.
pub open spec fn valid_window(s: Seq<FeeSampleView>, window: nat) -> bool {
    &&& s.len() <= window
    &&& strictly_rising(s)
    &&& forall|i: int| 0 <= i < s.len() ==> ascending(#[trigger] s[i].reward_percentiles)
}

/// The samples of `s` below `height`.
pub open spec fn below(s: Seq<FeeSampleView>, height: int) -> Seq<FeeSampleView> {
    s.filter(|x: FeeSampleView| x.block_number < height)
}

/// The window after `sample` is recorded: what lay below its height stays, the
/// sample follows, and the oldest samples leave until `window` are left.
pub open spec fn recorded(s: Seq<FeeSampleView>, window: nat, sample: FeeSampleView) -> Seq<
    FeeSampleView,
> {
    let grown = below(s, sample.block_number as int).push(normalized(sample));
    if grown.len() > window {
        grown.skip(grown.len() - window)
    } else {
        grown
    }
}

/// The window after each sample of `incoming` is recorded in turn.
pub open spec fn record_all(
    s: Seq<FeeSampleView>,
    window: nat,
    incoming: Seq<FeeSampleView>,
) -> Seq<FeeSampleView>
    decreases incoming.len(),
{
    if incoming.len() == 0 {
        s
    } else {
        recorded(record_all(s, window, incoming.drop_last()), window, incoming.last())
    }
}

/// The window after a chain notification whose adopted blocks have the
/// samples `incoming`: a reorg first drops every sample from the height of
/// its first discarded block on.
pub open spec fn after_notification(
    s: Seq<FeeSampleView>,
    window: nat,
    n: NotificationView,
    incoming: Seq<FeeSampleView>,
) -> Seq<FeeSampleView> {
    let kept = if n.discarded().len() > 0 {
        below(s, n.discarded()[0].number as int)
    } else {
        s
    };
    record_all(kept, window, incoming)
}

/// `s` holds a sample of the block at `height`.
pub open spec fn has_sample(s: Seq<FeeSampleView>, height: int) -> bool {
    exists|i: int| 0 <= i < s.len() && (#[trigger] s[i]).block_number == height
}

/// Every block of the range of `count` blocks from `first` has a sample in `s`.
pub open spec fn covers(s: Seq<FeeSampleView>, first: int, count: int) -> bool {
    forall|h: int| first <= h < first + count ==> #[trigger] has_sample(s, h)
}

/// The reward at percentile `p` on the line from `lo` to `hi`, rounded
/// towards the reward of `lo`.
pub open spec fn interpolate(lo: PercentileReward, hi: PercentileReward, p: int) -> int {
    let span = hi.percentile - lo.percentile;
    let step = p - lo.percentile;
    if hi.reward >= lo.reward {
        lo.reward + ((hi.reward - lo.reward) * step) / span
    } else {
        lo.reward - ((lo.reward - hi.reward) * step) / span
    }
}

/// `j` is the first entry of `r` whose percentile is `p` or more.
pub open spec fn first_at_or_above(r: Seq<PercentileReward>, p: int, j: int) -> bool {
    &&& 0 <= j < r.len()
    &&& r[j].percentile >= p
    &&& forall|k: int| 0 <= k < j ==> (#[trigger] r[k]).percentile < p
}

/// The reward that `r` gives for percentile `p`: the recorded one where `p`
/// is recorded, the interpolation between its two neighbours where it lies
/// between two recorded percentiles, none where it lies outside of them.
pub open spec fn reward_of(r: Seq<PercentileReward>, p: int) -> Option<int> {
    if exists|j: int| first_at_or_above(r, p, j) {
        let j = choose|j: int| first_at_or_above(r, p, j);
        if r[j].percentile == p {
            Some(r[j].reward as int)
        } else if j > 0 {
            Some(interpolate(r[j - 1], r[j], p))
        } else {
            None
        }
    } else {
        None
    }
}

proof fn lemma_first_at_or_above_unique(r: Seq<PercentileReward>, p: int, a: int, b: int)
    requires
        first_at_or_above(r, p, a),
        first_at_or_above(r, p, b),
    ensures
        a == b,
{
    if a < b {
        assert(r[a].percentile < p);
    } else if b < a {
        assert(r[b].percentile < p);
    }
}

proof fn lemma_scaled_division(diff: int, step: int, span: int)
    requires
        0 <= diff,
        0 <= step < span,
    ensures
        (diff * step) / span == (diff / span) * step + ((diff % span) * step) / span,
        0 <= (diff * step) / span <= diff,
        0 <= (diff / span) * step <= diff,
        0 <= (diff % span) * step < span * span,
        0 <= ((diff % span) * step) / span,
{
    let q = diff / span;
    let rem = diff % span;
    lemma_fundamental_div_mod(diff, span);
    lemma_mod_pos_bound(diff, span);
    let y = rem * step;
    assert(0 <= y < span * span) by (nonlinear_arith)
        requires
            y == rem * step,
            0 <= rem < span,
            0 <= step < span,
    ;
    lemma_fundamental_div_mod(y, span);
    lemma_mod_pos_bound(y, span);
    let a = q * step + y / span;
    let r = y % span;
    assert(0 <= q) by (nonlinear_arith)
        requires
            diff == span * q + rem,
            0 <= rem < span,
            0 <= diff,
    ;
    assert(0 <= y / span) by (nonlinear_arith)
        requires
            y == span * (y / span) + r,
            0 <= r < span,
            0 <= y,
    ;
    assert(diff * step == a * span + r) by (nonlinear_arith)
        requires
            diff == span * q + rem,
            y == rem * step,
            y == span * (y / span) + r,
            a == q * step + y / span,
    ;
    lemma_fundamental_div_mod_converse(diff * step, span, a, r);
    assert(0 <= q * step <= diff) by (nonlinear_arith)
        requires
            diff == span * q + rem,
            0 <= rem,
            0 <= q,
            0 <= step < span,
    ;
    assert(a <= diff) by (nonlinear_arith)
        requires
            diff * step == a * span + r,
            0 <= r,
            0 <= step < span,
            0 <= diff,
            0 <= a,
    ;
}

/// Sorting by percentile gives an ascending sequence that holds each entry of
/// the input as often as the input does.
pub proof fn lemma_sort_by_percentile(r: Seq<PercentileReward>)
    ensures
        ascending(sort_by_percentile(r)),
        sort_by_percentile(r).len() == r.len(),
        sort_by_percentile(r).to_multiset() == r.to_multiset(),
    decreases r.len(),
{
    broadcast use vstd::seq_lib::group_to_multiset_ensures;

    if r.len() > 0 {
        lemma_sort_by_percentile(r.drop_last());
        lemma_insert_by_percentile(sort_by_percentile(r.drop_last()), r.last());
        assert(r.drop_last().push(r.last()) == r);
    }
}

proof fn lemma_insert_by_percentile(sorted: Seq<PercentileReward>, x: PercentileReward)
    requires
        ascending(sorted),
    ensures
        ascending(insert_by_percentile(sorted, x)),
        insert_by_percentile(sorted, x).len() == sorted.len() + 1,
        insert_by_percentile(sorted, x).to_multiset() == sorted.to_multiset().insert(x),
        forall|i: int|
            0 <= i < sorted.len() + 1 ==> (#[trigger] insert_by_percentile(sorted, x)[i]) == x
                || sorted.contains(insert_by_percentile(sorted, x)[i]),
    decreases sorted.len(),
{
    broadcast use vstd::seq_lib::group_to_multiset_ensures;

    let out = insert_by_percentile(sorted, x);
    if sorted.len() == 0 || sorted.last().percentile <= x.percentile {
        assert forall|i: int| 0 <= i < sorted.len() + 1 implies (#[trigger] out[i]) == x
            || sorted.contains(out[i]) by {
            if i < sorted.len() {
                assert(out[i] == sorted[i]);
            }
        }
    } else {
        let front = sorted.drop_last();
        let inner = insert_by_percentile(front, x);
        lemma_insert_by_percentile(front, x);
        assert(front.push(sorted.last()) == sorted);
        assert forall|i: int, j: int| 0 <= i < j < out.len() implies out[i].percentile
            <= out[j].percentile by {
            if j == out.len() - 1 {
                assert(out[i] == inner[i]);
                if inner[i] != x {
                    assert(front.contains(inner[i]));
                    let k = choose|k: int| 0 <= k < front.len() && front[k] == inner[i];
                    assert(sorted[k] == inner[i]);
                }
            }
        }
        assert forall|i: int| 0 <= i < sorted.len() + 1 implies (#[trigger] out[i]) == x
            || sorted.contains(out[i]) by {
            if i < inner.len() {
                assert(out[i] == inner[i]);
                if inner[i] != x {
                    assert(front.contains(inner[i]));
                    let k = choose|k: int| 0 <= k < front.len() && front[k] == inner[i];
                    assert(sorted[k] == inner[i]);
                }
            } else {
                assert(out[i] == sorted[sorted.len() - 1]);
            }
        }
        assert(out.to_multiset() == sorted.to_multiset().insert(x)) by {
            assert(inner.to_multiset().insert(sorted.last()) =~= front.to_multiset().insert(
                sorted.last(),
            ).insert(x));
        }
    }
}

/// Along strictly rising samples, the ones below a height are a prefix.
proof fn lemma_below_is_prefix(s: Seq<FeeSampleView>, height: int, k: int)
    requires
        strictly_rising(s),
        0 <= k <= s.len(),
        forall|i: int| 0 <= i < k ==> (#[trigger] s[i]).block_number < height,
        k < s.len() ==> s[k].block_number >= height,
    ensures
        below(s, height) == s.take(k),
    decreases s.len(),
{
    reveal(Seq::filter);
    let pred = |x: FeeSampleView| x.block_number < height;
    if s.len() > 0 {
        let front = s.drop_last();
        if k == s.len() {
            lemma_below_is_prefix(front, height, k - 1);
            assert(front.take(k - 1) == front);
            assert(front.push(s.last()) == s);
            assert(s.take(k) == s);
        } else {
            lemma_below_is_prefix(front, height, k);
            assert(front.take(k) == s.take(k));
            assert(s[k].block_number <= s.last().block_number);
        }
    } else {
        assert(s.take(k) == s);
    }
}

/// What `recorded` gives is a valid window again.
pub proof fn lemma_recorded_is_valid(s: Seq<FeeSampleView>, window: nat, sample: FeeSampleView)
    requires
        valid_window(s, window),
    ensures
        valid_window(recorded(s, window, sample), window),
{
    let height = sample.block_number as int;
    let k = boundary(s, height);
    lemma_boundary(s, height);
    lemma_below_is_prefix(s, height, k);
    lemma_sort_by_percentile(sample.reward_percentiles);
    let grown = s.take(k).push(normalized(sample));
    assert forall|i: int, j: int| 0 <= i < j < grown.len() implies grown[i].block_number
        < grown[j].block_number by {
        if j < k {
            assert(grown[i] == s[i] && grown[j] == s[j]);
        } else {
            assert(grown[i] == s[i]);
        }
    }
    assert forall|i: int| 0 <= i < grown.len() implies ascending(
        #[trigger] grown[i].reward_percentiles,
    ) by {
        if i < k {
            assert(grown[i] == s[i]);
        }
    }
}

/// The number of leading samples of `s` that lie below `height`.
pub open spec fn boundary(s: Seq<FeeSampleView>, height: int) -> int
    decreases s.len(),
{
    if s.len() == 0 || s.last().block_number < height {
        s.len() as int
    } else {
        boundary(s.drop_last(), height)
    }
}

proof fn lemma_boundary(s: Seq<FeeSampleView>, height: int)
    requires
        strictly_rising(s),
    ensures
        0 <= boundary(s, height) <= s.len(),
        forall|i: int| 0 <= i < boundary(s, height) ==> (#[trigger] s[i]).block_number < height,
        boundary(s, height) < s.len() ==> s[boundary(s, height)].block_number >= height,
    decreases s.len(),
{
    if s.len() == 0 || s.last().block_number < height {
        assert forall|i: int| 0 <= i < s.len() implies (#[trigger] s[i]).block_number
            < height by {
            if i < s.len() - 1 {
                assert(s[i].block_number < s[s.len() - 1].block_number);
            }
        }
    } else {
        let front = s.drop_last();
        lemma_boundary(front, height);
        let k = boundary(front, height);
        assert forall|i: int| 0 <= i < k implies (#[trigger] s[i]).block_number < height by {
            assert(s[i] == front[i]);
        }
        if k < front.len() {
            assert(s[k] == front[k]);
        }
    }
}

impl FeeSample {
    /// A sample with the same content.
    pub fn duplicate(&self) -> (out: FeeSample)
        ensures
            out@ == self@,
    {
        let mut rewards: Vec<PercentileReward> = Vec::new();
        let mut i: usize = 0;
        while i < self.reward_percentiles.len()
            invariant
                i <= self.reward_percentiles.len(),
                rewards@ == self.reward_percentiles@.take(i as int),
            decreases self.reward_percentiles.len() - i,
        {
            rewards.push(self.reward_percentiles[i]);
            i = i + 1;
        }
        proof {
            assert(self.reward_percentiles@.take(i as int) == self.reward_percentiles@);
        }
        FeeSample {
            block_number: self.block_number,
            base_fee_per_gas: self.base_fee_per_gas,
            gas_used_ratio: self.gas_used_ratio,
            reward_percentiles: rewards,
        }
    }

    /// The reward at `percentile`: the recorded one, or the linear
    /// interpolation between the nearest recorded percentile below and the
    /// nearest above; `None` where `percentile` lies below or above every
    /// recorded one.
    pub fn reward_at(&self, percentile: u32) -> (out: Option<u128>)
        ensures
            out.is_some() == reward_of(self@.reward_percentiles, percentile as int).is_some(),
            out.is_some() ==> out.unwrap() == reward_of(
                self@.reward_percentiles,
                percentile as int,
            ).unwrap(),
    {
        let r = &self.reward_percentiles;
        let mut j: usize = 0;
        while j < r.len() && r[j].percentile < percentile
            invariant
                j <= r.len(),
                forall|k: int| 0 <= k < j ==> (#[trigger] r@[k]).percentile < percentile,
            decreases r.len() - j,
        {
            j = j + 1;
        }
        if j >= r.len() {
            proof {
                assert forall|m: int| !first_at_or_above(r@, percentile as int, m) by {
                    if 0 <= m < r@.len() {
                        assert(r@[m].percentile < percentile);
                    }
                }
            }
            return None;
        }
        proof {
            assert(first_at_or_above(r@, percentile as int, j as int));
            let c = choose|m: int| first_at_or_above(r@, percentile as int, m);
            lemma_first_at_or_above_unique(r@, percentile as int, c, j as int);
        }
        let hi = r[j];
        if hi.percentile == percentile {
            return Some(hi.reward);
        }
        if j == 0 {
            return None;
        }
        let lo = r[j - 1];
        let span: u128 = (hi.percentile - lo.percentile) as u128;
        let step: u128 = (percentile - lo.percentile) as u128;
        let rising = hi.reward >= lo.reward;
        let diff: u128 = if rising {
            hi.reward - lo.reward
        } else {
            lo.reward - hi.reward
        };
        proof {
            lemma_scaled_division(diff as int, step as int, span as int);
            assert(span * span <= 0xffff_ffff * 0xffff_ffff) by (nonlinear_arith)
                requires
                    0 <= span <= 0xffff_ffff,
            ;
        }
        let whole: u128 = (diff / span) * step;
        let part: u128 = ((diff % span) * step) / span;
        let delta: u128 = whole + part;
        if rising {
            Some(lo.reward + delta)
        } else {
            Some(lo.reward - delta)
        }
    }
}

/// Places `x` behind the last entry whose percentile is not above its own.
fn insert_reward(sorted: &mut Vec<PercentileReward>, x: PercentileReward)
    ensures
        final(sorted)@ == insert_by_percentile(old(sorted)@, x),
{
    let mut pos: usize = sorted.len();
    proof {
        assert(sorted@.take(pos as int) == sorted@);
        assert(insert_by_percentile(sorted@, x) + sorted@.skip(pos as int) == insert_by_percentile(
            sorted@,
            x,
        ));
    }
    while pos > 0 && sorted[pos - 1].percentile > x.percentile
        invariant
            pos <= sorted.len(),
            sorted@ == old(sorted)@,
            insert_by_percentile(sorted@, x) == insert_by_percentile(sorted@.take(pos as int), x)
                + sorted@.skip(pos as int),
        decreases pos,
    {
        proof {
            let head = sorted@.take(pos as int);
            assert(head.drop_last() == sorted@.take(pos - 1));
            assert(insert_by_percentile(head, x) == insert_by_percentile(head.drop_last(), x).push(
                head.last(),
            ));
            assert(insert_by_percentile(head.drop_last(), x).push(head.last()) + sorted@.skip(
                pos as int,
            ) == insert_by_percentile(head.drop_last(), x) + sorted@.skip(pos - 1));
        }
        pos = pos - 1;
    }
    proof {
        let head = sorted@.take(pos as int);
        assert(insert_by_percentile(head, x) == head.push(x));
        assert(head.push(x) + sorted@.skip(pos as int) == sorted@.insert(pos as int, x));
    }
    sorted.insert(pos, x);
}

/// The rewards in ascending order of percentile; entries of equal percentile
/// keep their order.
pub fn sort_rewards(rewards: &Vec<PercentileReward>) -> (out: Vec<PercentileReward>)
    ensures
        out@ == sort_by_percentile(rewards@),
{
    let mut out: Vec<PercentileReward> = Vec::new();
    let mut i: usize = 0;
    while i < rewards.len()
        invariant
            i <= rewards.len(),
            out@ == sort_by_percentile(rewards@.take(i as int)),
        decreases rewards.len() - i,
    {
        proof {
            assert(rewards@.take(i + 1).drop_last() == rewards@.take(i as int));
        }
        insert_reward(&mut out, rewards[i]);
        i = i + 1;
    }
    proof {
        assert(rewards@.take(rewards.len() as int) == rewards@);
    }
    out
}

/// The most recent fee samples, oldest first.
pub struct FeeHistoryCache {
    samples: Vec<FeeSample>,
    window: usize,
}

impl View for FeeHistoryCache {
    type V = Seq<FeeSampleView>;

    closed spec fn view(&self) -> Seq<FeeSampleView> {
        sample_views(self.samples@)
    }
}

impl FeeHistoryCache {
    /// The number of samples that the window retains at most.
    pub closed spec fn window(&self) -> nat {
        self.window as nat
    }

    /// The window holds at most `window()` samples, in strictly rising order
    /// of block number, each with its rewards in ascending order of percentile.
    pub open spec fn wf(&self) -> bool {
        valid_window(self@, self.window())
    }

    /// An empty window that retains up to `window` samples.
    pub fn new(window: usize) -> (out: FeeHistoryCache)
        ensures
            out.wf(),
            out@ == Seq::<FeeSampleView>::empty(),
            out.window() == window,
    {
        let out = FeeHistoryCache { samples: Vec::new(), window };
        proof {
            assert(out@ =~= Seq::<FeeSampleView>::empty());
        }
        out
    }

    /// The number of samples in the window.
    pub fn len(&self) -> (n: usize)
        ensures
            n == self@.len(),
    {
        self.samples.len()
    }

    /// The block numbers of the oldest and the newest sample.
    pub fn bounds(&self) -> (out: Option<(u64, u64)>)
        ensures
            self@.len() == 0 ==> out.is_none(),
            self@.len() > 0 ==> out == Some((self@[0].block_number, self@.last().block_number)),
    {
        if self.samples.len() == 0 {
            None
        } else {
            Some(
                (
                    self.samples[0].block_number,
                    self.samples[self.samples.len() - 1].block_number,
                ),
            )
        }
    }

    /// Drops every sample at `height` or above.
    pub fn discard_from(&mut self, height: u64)
        requires
            old(self).wf(),
        ensures
            final(self).wf(),
            final(self).window() == old(self).window(),
            final(self)@ == below(old(self)@, height as int),
    {
        let mut k: usize = self.samples.len();
        while k > 0 && self.samples[k - 1].block_number >= height
            invariant
                k <= self.samples.len(),
                *self == *old(self),
                self.wf(),
                k < self@.len() ==> self@[k as int].block_number >= height,
            decreases k,
        {
            k = k - 1;
        }
        proof {
            assert forall|i: int| 0 <= i < k implies (#[trigger] self@[i]).block_number
                < height by {
                if i < k - 1 {
                    assert(self@[i].block_number < self@[k - 1].block_number);
                }
            }
            lemma_below_is_prefix(self@, height as int, k as int);
        }
        self.samples.truncate(k);
        proof {
            assert(self@ =~= old(self)@.take(k as int));
        }
    }

    /// Records the sample of a block. Samples that the window held at that
    /// height or above leave first; the sample's rewards are put in ascending
    /// order of percentile; the oldest sample leaves where the window is full.
    pub fn record(&mut self, sample: FeeSample)
        requires
            old(self).wf(),
        ensures
            final(self).wf(),
            final(self).window() == old(self).window(),
            final(self)@ == recorded(old(self)@, old(self).window(), sample@),
    {
        self.discard_from(sample.block_number);
        let ghost kept = self@;
        let stored = FeeSample {
            block_number: sample.block_number,
            base_fee_per_gas: sample.base_fee_per_gas,
            gas_used_ratio: sample.gas_used_ratio,
            reward_percentiles: sort_rewards(&sample.reward_percentiles),
        };
        assert(stored@ == normalized(sample@));
        self.samples.push(stored);
        proof {
            assert(self@ =~= kept.push(normalized(sample@)));
            lemma_recorded_is_valid(old(self)@, old(self).window(), sample@);
        }
        if self.samples.len() > self.window {
            self.samples.remove(0);
            proof {
                assert(self@ =~= kept.push(normalized(sample@)).skip(1));
            }
        }
    }

    /// Follows a chain notification. `samples` are the fee samples of the
    /// adopted blocks, in chain order. A reorg first drops every sample from
    /// the height of its first discarded block on; then each sample is recorded.
    pub fn on_notification(&mut self, notification: &ChainNotification, samples: &Vec<FeeSample>)
        requires
            old(self).wf(),
        ensures
            final(self).wf(),
            final(self).window() == old(self).window(),
            final(self)@ == after_notification(
                old(self)@,
                old(self).window(),
                notification@,
                sample_views(samples@),
            ),
    {
        match notification {
            ChainNotification::Reorg { old, .. } => {
                if old.len() > 0 {
                    self.discard_from(old[0].number);
                }
            },
            ChainNotification::Commit { .. } => {},
        }
        let ghost kept = self@;
        let ghost incoming = sample_views(samples@);
        let mut i: usize = 0;
        while i < samples.len()
            invariant
                i <= samples.len(),
                self.wf(),
                self.window() == old(self).window(),
                incoming == sample_views(samples@),
                self@ == record_all(kept, old(self).window(), incoming.take(i as int)),
            decreases samples.len() - i,
        {
            proof {
                assert(incoming.take(i + 1).drop_last() == incoming.take(i as int));
                assert(incoming.take(i + 1).last() == samples@[i as int]@);
            }
            self.record(samples[i].duplicate());
            i = i + 1;
        }
        proof {
            assert(incoming.take(samples.len() as int) == incoming);
        }
    }

    /// The samples of the `block_count` blocks from `first_block` on, in
    /// block-number order; `InsufficientHistory` where the window lacks the
    /// sample of any block of that range.
    pub fn range_query(&self, first_block: u64, block_count: u64) -> (out: Result<
        Vec<FeeSample>,
        FeeHistoryError,
    >)
        requires
            self.wf(),
        ensures
            out.is_ok() == covers(self@, first_block as int, block_count as int),
            out matches Ok(found) ==> {
                &&& found@.len() == block_count
                &&& forall|k: int|
                    0 <= k < block_count ==> (#[trigger] found@[k])@.block_number == first_block + k
                        && self@.contains(found@[k]@)
            },
    {
        let n = self.samples.len();
        let mut start: usize = 0;
        while start < n && self.samples[start].block_number < first_block
            invariant
                start <= n,
                n == self.samples@.len(),
                forall|i: int| 0 <= i < start ==> (#[trigger] self@[i]).block_number < first_block,
            decreases n - start,
        {
            start = start + 1;
        }
        let mut found: Vec<FeeSample> = Vec::new();
        let mut k: u64 = 0;
        while k < block_count
            invariant
                k <= block_count,
                start <= n,
                n == self.samples@.len(),
                self.wf(),
                found@.len() == k,
                start + k <= n,
                start < n ==> self@[start as int].block_number >= first_block,
                forall|i: int| 0 <= i < start ==> (#[trigger] self@[i]).block_number < first_block,
                forall|m: int|
                    0 <= m < k ==> (#[trigger] found@[m])@ == self@[start + m] && self@[start
                        + m].block_number == first_block + m,
            decreases block_count - k,
        {
            let at: usize = start + k as usize;
            if at >= n || self.samples[at].block_number < first_block
                || self.samples[at].block_number - first_block != k {
                proof {
                    let h = first_block + k;
                    assert forall|i: int| 0 <= i < self@.len() implies (#[trigger] self@[i]).block_number
                        != h by {
                        if i < start {
                        } else if i < start + k {
                            let m = i - start;
                            assert(found@[m]@ == self@[start + m]);
                        } else {
                            assert(at < n);
                            assert(self@[at as int] == self.samples@[at as int]@);
                            if k > 0 {
                                assert(found@[k - 1]@ == self@[start + (k - 1)]);
                                assert(self@[start + k - 1].block_number
                                    < self@[at as int].block_number);
                            }
                            if i > at {
                                assert(self@[at as int].block_number < self@[i].block_number);
                            }
                        }
                    }
                    assert(!has_sample(self@, h as int));
                }
                return Err(FeeHistoryError::InsufficientHistory);
            }
            let ghost earlier = found@;
            found.push(self.samples[at].duplicate());
            proof {
                assert(self@[at as int] == self.samples@[at as int]@);
                assert forall|m: int| 0 <= m < k + 1 implies (#[trigger] found@[m])@ == self@[start
                    + m] && self@[start + m].block_number == first_block + m by {
                    if m < k {
                        assert(found@[m] == earlier[m]);
                    }
                }
            }
            k = k + 1;
        }
        proof {
            assert forall|h: int|
                first_block <= h < first_block + block_count implies #[trigger] has_sample(
                self@,
                h,
            ) by {
                let m = h - first_block;
                assert(found@[m]@ == self@[start + m]);
                assert(self@[start + m].block_number == h);
            }
            assert forall|m: int| 0 <= m < block_count implies (#[trigger] found@[m])@.block_number
                == first_block + m && self@.contains(found@[m]@) by {
                assert(found@[m]@ == self@[start + m]);
            }
        }
        Ok(found)
    }
}

/// A range is covered only if it lies within the block numbers of the oldest
/// and the newest sample of the window.
pub proof fn lemma_covered_range_lies_in_window(s: Seq<FeeSampleView>, first: int, count: int)
    requires
        strictly_rising(s),
        count > 0,
        covers(s, first, count),
    ensures
        s.len() > 0,
        s[0].block_number <= first,
        first + count - 1 <= s.last().block_number,
{
    let last = first + count - 1;
    assert(has_sample(s, first) && has_sample(s, last));
    let i = choose|i: int| 0 <= i < s.len() && (#[trigger] s[i]).block_number == first;
    let j = choose|j: int| 0 <= j < s.len() && (#[trigger] s[j]).block_number == last;
    if 0 < i {
        assert(s[0].block_number < s[i].block_number);
    }
    if j < s.len() - 1 {
        assert(s[j].block_number < s[s.len() - 1].block_number);
    }
}

/// Recording samples of consecutive blocks, no more of them than the window
/// retains, leaves exactly those samples at the end of the window, in block
/// order and with their rewards sorted; the range that they span is covered,
/// and no range that reaches beyond the newest of them is.
pub proof fn lemma_recorded_samples_are_returned(
    s: Seq<FeeSampleView>,
    window: nat,
    incoming: Seq<FeeSampleView>,
)
    requires
        valid_window(s, window),
        0 < incoming.len() <= window,
        forall|i: int|
            0 <= i < incoming.len() ==> (#[trigger] incoming[i]).block_number
                == incoming[0].block_number + i,
    ensures
        valid_window(record_all(s, window, incoming), window),
        record_all(s, window, incoming).len() >= incoming.len(),
        record_all(s, window, incoming).skip(
            record_all(s, window, incoming).len() - incoming.len(),
        ) == incoming.map_values(|x: FeeSampleView| normalized(x)),
        covers(
            record_all(s, window, incoming),
            incoming[0].block_number as int,
            incoming.len() as int,
        ),
        !covers(
            record_all(s, window, incoming),
            incoming[0].block_number as int,
            incoming.len() as int + 1,
        ),
    decreases incoming.len(),
{
    let first = incoming[0].block_number as int;
    let front = incoming.drop_last();
    let sample = incoming.last();
    let before = record_all(s, window, front);
    let after = record_all(s, window, incoming);
    let want = incoming.map_values(|x: FeeSampleView| normalized(x));
    let height = sample.block_number as int;
    if front.len() == 0 {
        assert(before == s);
    } else {
        assert forall|i: int| 0 <= i < front.len() implies (#[trigger] front[i]).block_number
            == front[0].block_number + i by {
            assert(front[i] == incoming[i]);
            assert(front[0] == incoming[0]);
        }
        lemma_recorded_samples_are_returned(s, window, front);
    }
    lemma_recorded_is_valid(before, window, sample);
    let k = boundary(before, height);
    lemma_boundary(before, height);
    lemma_below_is_prefix(before, height, k);
    let grown = before.take(k).push(normalized(sample));
    let m = front.len() as int;
    if m > 0 {
        let tail = before.skip(before.len() - m);
        let want_front = front.map_values(|x: FeeSampleView| normalized(x));
        assert(tail == want_front);
        assert(tail[m - 1] == before[before.len() - 1]);
        assert(want_front[m - 1] == normalized(front[m - 1]));
        assert(front[m - 1] == incoming[m - 1]);
        assert(before[before.len() - 1].block_number == first + (m - 1));
        assert(incoming[m].block_number == first + m);
        assert(k == before.len()) by {
            if k < before.len() {
                if k < before.len() - 1 {
                    assert(before[k].block_number < before[before.len() - 1].block_number);
                }
            }
        }
    }
    assert(grown.len() >= incoming.len());
    assert(after.len() >= incoming.len());
    let got = after.skip(after.len() - incoming.len());
    assert(got =~= want) by {
        assert forall|i: int| 0 <= i < incoming.len() implies got[i] == want[i] by {
            if i == m {
            } else {
                let tail = before.skip(before.len() - m);
                let want_front = front.map_values(|x: FeeSampleView| normalized(x));
                assert(tail[i] == before[before.len() - m + i]);
                assert(want_front[i] == normalized(front[i]));
                assert(front[i] == incoming[i]);
            }
        }
    }
    assert forall|h: int| first <= h < first + incoming.len() implies #[trigger] has_sample(
        after,
        h,
    ) by {
        let i = after.len() - incoming.len() + (h - first);
        assert(got[h - first] == after[i]);
        assert(want[h - first] == normalized(incoming[h - first]));
    }
    assert(!covers(after, first, incoming.len() as int + 1)) by {
        let h = first + incoming.len();
        assert(got[m] == after[after.len() - 1]);
        assert(want[m] == normalized(incoming[m]));
        assert forall|i: int| 0 <= i < after.len() implies (#[trigger] after[i]).block_number
            != h by {
            if i < after.len() - 1 {
                assert(after[i].block_number < after[after.len() - 1].block_number);
            }
        }
        assert(!has_sample(after, h));
    }
}

} // verus!
