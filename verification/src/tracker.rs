//! The canonical chain and the notifications that describe how it changes.
//!
//! The tracker is told the newest blocks of the chain that the node adopted.
//! It finds where that segment leaves the chain it knows (the fork point),
//! replaces what lay above the fork point by the new blocks, and publishes
//! one notification with the blocks that left and the blocks that joined.
//! It retains the newest blocks only, one more than the deepest reorg it
//! supports; a segment that joins the chain below them is refused.

use crate::subscription::answer_view;
use crate::subscription::HubView;
use crate::subscription::SubscriptionError;
use crate::subscription::SubscriptionHub;
use crate::types::follows;
use crate::types::lemma_apply_keeps_linked;
use crate::types::linked;
use crate::types::B256;
use crate::types::BlockRef;
use crate::types::ChainNotification;
use crate::types::NotificationView;
use vstd::prelude::*;

verus! {

/// Why a segment was not adopted.
#[derive(Clone, Copy, Debug, PartialEq, Eq, Structural)]
pub enum TrackerError {
    /// No block of the segment, nor the parent of its first block, is among
    /// the retained blocks of the canonical chain.
    DeepReorgUnsupported,
    /// The segment is empty, or one of its blocks does not follow the block
    /// before it.
    InvalidSegment,
    /// The last block of the segment is canonical already.
    NothingNew,
}

/// The hash that the first `j` blocks of `s` hang on when they are left out:
/// the parent of the first block, or the hash of block `j - 1`.
pub open spec fn anchor(s: Seq<BlockRef>, j: int) -> B256 {
    if j == 0 {
        s[0].parent_hash
    } else {
        s[j - 1].hash
    }
}

/// A block of `w` has the hash `h`.
pub open spec fn on_chain(w: Seq<BlockRef>, h: B256) -> bool {
    exists|i: int| 0 <= i < w.len() && (#[trigger] w[i]).hash == h
}

/// `i` is the last position of `w` whose block has the hash `h`.
pub open spec fn is_last_position(w: Seq<BlockRef>, h: B256, i: int) -> bool {
    &&& 0 <= i < w.len()
    &&& w[i].hash == h
    &&& forall|k: int| i < k < w.len() ==> (#[trigger] w[k]).hash != h
}

/// The first `j` blocks of `s` are on the chain `w` and block `j` is not:
/// `j` is the greatest number whose anchor is on `w`.
pub open spec fn is_fork(w: Seq<BlockRef>, s: Seq<BlockRef>, j: int) -> bool {
    &&& 0 <= j <= s.len()
    &&& on_chain(w, anchor(s, j))
    &&& forall|k: int| j < k <= s.len() ==> !on_chain(w, #[trigger] anchor(s, k))
}

/// What a segment `s` that forks off at its block `j`, from the block `i` of
/// the chain `w`, leads to.
pub open spec fn resolved(w: Seq<BlockRef>, s: Seq<BlockRef>, j: int, i: int) -> Result<
    NotificationView,
    TrackerError,
> {
    if j == s.len() {
        Err(TrackerError::NothingNew)
    } else if !follows(w[i], s[j]) {
        Err(TrackerError::InvalidSegment)
    } else if i == w.len() - 1 {
        Ok(NotificationView::Commit { new: s.skip(j) })
    } else {
        Ok(NotificationView::Reorg { old: w.skip(i + 1), new: s.skip(j) })
    }
}

/// `out` is what the segment `s` leads to on the retained chain `w`.
pub open spec fn is_update_result(
    w: Seq<BlockRef>,
    s: Seq<BlockRef>,
    out: Result<NotificationView, TrackerError>,
) -> bool {
    if s.len() == 0 || !linked(s) {
        out == Err::<NotificationView, TrackerError>(TrackerError::InvalidSegment)
    } else if forall|j: int| 0 <= j <= s.len() ==> !on_chain(w, #[trigger] anchor(s, j)) {
        out == Err::<NotificationView, TrackerError>(TrackerError::DeepReorgUnsupported)
    } else {
        exists|j: int, i: int|
            is_fork(w, s, j) && #[trigger] is_last_position(w, anchor(s, j), i) && out == resolved(
                w,
                s,
                j,
                i,
            )
    }
}

/// The last `limit` blocks of `w`.
pub open spec fn newest(w: Seq<BlockRef>, limit: nat) -> Seq<BlockRef> {
    if w.len() > limit {
        w.skip(w.len() - limit)
    } else {
        w
    }
}

/// The content of what an update returned.
pub open spec fn result_view(out: Result<ChainNotification, TrackerError>) -> Result<
    NotificationView,
    TrackerError,
> {
    match out {
        Ok(n) => Ok(n@),
        Err(e) => Err(e),
    }
}

/// A segment forks off at one place only: what it leads to is determined.
pub proof fn lemma_update_result_is_unique(
    w: Seq<BlockRef>,
    s: Seq<BlockRef>,
    a: Result<NotificationView, TrackerError>,
    b: Result<NotificationView, TrackerError>,
)
    requires
        is_update_result(w, s, a),
        is_update_result(w, s, b),
    ensures
        a == b,
{
    if s.len() == 0 || !linked(s) {
    } else if forall|j: int| 0 <= j <= s.len() ==> !on_chain(w, #[trigger] anchor(s, j)) {
    } else {
        let (ja, ia) = choose|j: int, i: int|
            is_fork(w, s, j) && #[trigger] is_last_position(w, anchor(s, j), i) && a == resolved(
                w,
                s,
                j,
                i,
            );
        let (jb, ib) = choose|j: int, i: int|
            is_fork(w, s, j) && #[trigger] is_last_position(w, anchor(s, j), i) && b == resolved(
                w,
                s,
                j,
                i,
            );
        if ja < jb {
            assert(!on_chain(w, anchor(s, jb)));
        } else if jb < ja {
            assert(!on_chain(w, anchor(s, ja)));
        }
        if ia < ib {
            assert(w[ib].hash != anchor(s, ja));
        } else if ib < ia {
            assert(w[ia].hash != anchor(s, jb));
        }
    }
}

/// Whether each block of `blocks` follows the one before it.
pub fn is_linked(blocks: &Vec<BlockRef>) -> (out: bool)
    ensures
        out == linked(blocks@),
{
    let mut i: usize = 1;
    while i < blocks.len()
        invariant
            1 <= i,
            forall|k: int| 0 < k < i && k < blocks.len() ==> follows(blocks@[k - 1], #[trigger] blocks@[k]),
        decreases blocks.len() - i,
    {
        let prev = blocks[i - 1];
        let next = blocks[i];
        if !(next.parent_hash == prev.hash && prev.number <= next.number) {
            assert(!follows(blocks@[i - 1], blocks@[i as int]));
            return false;
        }
        i = i + 1;
    }
    true
}

/// The last position of `w` whose block has the hash `h`.
fn find_last(w: &Vec<BlockRef>, h: B256) -> (out: Option<usize>)
    ensures
        out.is_some() == on_chain(w@, h),
        out matches Some(i) ==> is_last_position(w@, h, i as int),
{
    let mut i: usize = w.len();
    while i > 0
        invariant
            i <= w.len(),
            forall|k: int| i <= k < w.len() ==> (#[trigger] w@[k]).hash != h,
        decreases i,
    {
        i = i - 1;
        if w[i].hash == h {
            return Some(i);
        }
    }
    None
}

/// The blocks of `blocks` from position `from` on.
fn copy_from(blocks: &Vec<BlockRef>, from: usize) -> (out: Vec<BlockRef>)
    requires
        from <= blocks.len(),
    ensures
        out@ == blocks@.skip(from as int),
{
    let mut out: Vec<BlockRef> = Vec::new();
    let mut i: usize = from;
    while i < blocks.len()
        invariant
            from <= i <= blocks.len(),
            out@ == blocks@.subrange(from as int, i as int),
        decreases blocks.len() - i,
    {
        out.push(blocks[i]);
        i = i + 1;
    }
    out
}

/// Where `segment` forks off the chain `w`: the number of its leading blocks
/// that are on `w`, and the last position of `w` that they hang on.
fn locate(w: &Vec<BlockRef>, segment: &Vec<BlockRef>) -> (out: Option<(usize, usize)>)
    requires
        segment.len() > 0,
    ensures
        out.is_none() ==> forall|j: int|
            0 <= j <= segment@.len() ==> !on_chain(w@, #[trigger] anchor(segment@, j)),
        out matches Some((j, i)) ==> is_fork(w@, segment@, j as int) && is_last_position(
            w@,
            anchor(segment@, j as int),
            i as int,
        ),
{
    let len = segment.len();
    let ghost s = segment@;
    let mut j: usize = len;
    let mut at: Option<usize> = find_last(w, segment[len - 1].hash);
    while at.is_none() && j > 0
        invariant
            j <= len,
            len == s.len(),
            len > 0,
            s == segment@,
            at.is_some() == on_chain(w@, anchor(s, j as int)),
            at matches Some(i) ==> is_last_position(w@, anchor(s, j as int), i as int),
            forall|k: int| j < k <= len ==> !on_chain(w@, #[trigger] anchor(s, k)),
        decreases j,
    {
        j = j - 1;
        let h = if j == 0 {
            segment[0].parent_hash
        } else {
            segment[j - 1].hash
        };
        at = find_last(w, h);
    }
    match at {
        Some(i) => Some((j, i)),
        None => None,
    }
}

/// Keeps the first `keep` blocks of `window`, appends the blocks of `segment`
/// from `from` on, and drops the oldest blocks beyond `max_depth + 1`.
fn splice(
    window: &mut Vec<BlockRef>,
    keep: usize,
    segment: &Vec<BlockRef>,
    from: usize,
    max_depth: usize,
)
    requires
        keep <= old(window).len(),
        from <= segment.len(),
    ensures
        final(window)@ == newest(
            old(window)@.take(keep as int) + segment@.skip(from as int),
            max_depth as nat + 1,
        ),
{
    window.truncate(keep);
    let mut k: usize = from;
    while k < segment.len()
        invariant
            from <= k <= segment.len(),
            window@ == old(window)@.take(keep as int) + segment@.subrange(from as int, k as int),
        decreases segment.len() - k,
    {
        window.push(segment[k]);
        k = k + 1;
    }
    let ghost grown = window@;
    proof {
        assert(segment@.subrange(from as int, segment.len() as int) == segment@.skip(from as int));
        assert(grown == old(window)@.take(keep as int) + segment@.skip(from as int));
    }
    let len = window.len();
    if max_depth < usize::MAX && len > max_depth + 1 {
        let cut = len - (max_depth + 1);
        let tail = window.split_off(cut);
        *window = tail;
        proof {
            assert(window@ == grown.skip(cut as int));
        }
    }
}

/// The newest blocks of a changed chain are the newest blocks of what its
/// retained part became.
proof fn lemma_window_follows(
    history: Seq<BlockRef>,
    w: Seq<BlockRef>,
    n: NotificationView,
    limit: nat,
)
    requires
        limit >= 1,
        1 <= w.len() <= history.len(),
        w == history.skip(history.len() - w.len()),
        n.applies_to(w),
    ensures
        1 <= newest(n.apply(w), limit).len() <= limit,
        newest(n.apply(w), limit).len() <= n.apply(history).len(),
        newest(n.apply(w), limit) == n.apply(history).skip(
            n.apply(history).len() - newest(n.apply(w), limit).len(),
        ),
{
    let grown = n.apply(w);
    let next = n.apply(history);
    let shift = history.len() - w.len();
    assert(next.skip(shift) =~= grown);
    let out = newest(grown, limit);
    assert(out =~= next.skip(next.len() - out.len()));
}

/// The canonical chain, as far as it is retained, and its subscribers.
pub struct CanonicalChainTracker {
    window: Vec<BlockRef>,
    max_depth: usize,
    history: Ghost<Seq<BlockRef>>,
    hub: SubscriptionHub,
}

impl CanonicalChainTracker {
    /// The canonical chain since the tracker was made, oldest block first.
    pub closed spec fn history(&self) -> Seq<BlockRef> {
        self.history@
    }

    /// The newest blocks of the canonical chain, which the tracker retains.
    pub closed spec fn retained(&self) -> Seq<BlockRef> {
        self.window@
    }

    /// The deepest reorg that is supported: the number of blocks that may
    /// leave the chain at once.
    pub closed spec fn max_depth(&self) -> nat {
        self.max_depth as nat
    }

    /// The subscribers and what was published to them.
    pub closed spec fn hub(&self) -> HubView {
        self.hub@
    }

    /// The chain is linked, and the retained blocks are its newest ones, at
    /// least one and at most one more than the supported depth.
    pub open spec fn wf(&self) -> bool {
        &&& linked(self.history())
        &&& 1 <= self.retained().len() <= self.max_depth() + 1
        &&& self.retained().len() <= self.history().len()
        &&& self.retained() == self.history().skip(self.history().len() - self.retained().len())
        &&& self.hub().wf()
    }

    /// A tracker of the chain that ends at `head`, which supports reorgs of
    /// up to `max_depth` blocks and gives each subscriber a queue of
    /// `queue_capacity` notifications.
    pub fn new(head: BlockRef, max_depth: usize, queue_capacity: usize) -> (out:
        CanonicalChainTracker)
        ensures
            out.wf(),
            out.history() == seq![head],
            out.retained() == seq![head],
            out.max_depth() == max_depth,
            out.hub().capacity == queue_capacity,
            out.hub().subscribers.len() == 0,
            out.hub().log.len() == 0,
    {
        let mut window: Vec<BlockRef> = Vec::new();
        window.push(head);
        let out = CanonicalChainTracker {
            window,
            max_depth,
            history: Ghost(Seq::empty().push(head)),
            hub: SubscriptionHub::new(queue_capacity),
        };
        proof {
            assert(out.window@ == seq![head]);
            assert(out.history@ == seq![head]);
            assert(seq![head].skip(0) == seq![head]);
        }
        out
    }

    /// A tracker of the chain whose newest blocks are `chain`, oldest first;
    /// `None` where `chain` is empty or one of its blocks does not follow the
    /// block before it. Of `chain` the newest `max_depth + 1` blocks are
    /// retained, so that reorgs of up to `max_depth` blocks are supported
    /// from the start.
    pub fn with_chain(chain: &Vec<BlockRef>, max_depth: usize, queue_capacity: usize) -> (out:
        Option<CanonicalChainTracker>)
        ensures
            out.is_some() == (chain@.len() > 0 && linked(chain@)),
            out matches Some(tracker) ==> {
                &&& tracker.wf()
                &&& tracker.history() == chain@
                &&& tracker.retained() == newest(chain@, max_depth as nat + 1)
                &&& tracker.max_depth() == max_depth
                &&& tracker.hub().capacity == queue_capacity
                &&& tracker.hub().subscribers.len() == 0
                &&& tracker.hub().log.len() == 0
            },
    {
        if chain.len() == 0 || !is_linked(chain) {
            return None;
        }
        let mut window: Vec<BlockRef> = Vec::new();
        splice(&mut window, 0, chain, 0, max_depth);
        proof {
            assert(window@ == newest(chain@, max_depth as nat + 1)) by {
                assert(Seq::<BlockRef>::empty().take(0) + chain@.skip(0) == chain@);
            }
            assert(window@ == chain@.skip(chain@.len() - window@.len()));
        }
        Some(
            CanonicalChainTracker {
                window,
                max_depth,
                history: Ghost(chain@),
                hub: SubscriptionHub::new(queue_capacity),
            },
        )
    }

    /// The newest block of the canonical chain.
    pub fn head(&self) -> (out: BlockRef)
        requires
            self.wf(),
        ensures
            out == self.history().last(),
            out == self.retained().last(),
    {
        self.window[self.window.len() - 1]
    }

    /// The number of blocks that are retained.
    pub fn retained_len(&self) -> (n: usize)
        ensures
            n == self.retained().len(),
    {
        self.window.len()
    }

    /// Whether `block` is one of the retained blocks of the canonical chain.
    pub fn is_canonical(&self, block: &BlockRef) -> (out: bool)
        requires
            self.wf(),
        ensures
            out == self.retained().contains(*block),
            out ==> self.history().contains(*block),
    {
        let out = crate::types::contains_block(&self.window, block);
        proof {
            if out {
                let i = choose|i: int| 0 <= i < self.window@.len() && self.window@[i] == *block;
                let shift = self.history@.len() - self.window@.len();
                assert(self.history@[shift + i] == *block);
            }
        }
        out
    }

    /// Adopts a segment of the chain that the node made canonical: its newest
    /// blocks, oldest first, ending at the new head.
    ///
    /// The fork point is the last block of the segment that is among the
    /// retained blocks of the chain, or else the parent of its first block.
    /// The retained blocks above the fork point leave the chain, the blocks
    /// of the segment above it join, and one notification that says so is
    /// published to the subscribers and returned. On an error nothing changes.
    pub fn update(&mut self, segment: &Vec<BlockRef>) -> (out: Result<
        ChainNotification,
        TrackerError,
    >)
        requires
            old(self).wf(),
        ensures
            final(self).wf(),
            final(self).max_depth() == old(self).max_depth(),
            is_update_result(old(self).retained(), segment@, result_view(out)),
            out matches Ok(n) ==> {
                &&& n@.applies_to(old(self).history())
                &&& n@.applies_to(old(self).retained())
                &&& !on_chain(old(self).retained(), n@.adopted()[0].hash)
                &&& final(self).history() == n@.apply(old(self).history())
                &&& final(self).retained() == newest(
                    n@.apply(old(self).retained()),
                    old(self).max_depth() + 1,
                )
                &&& final(self).hub() == old(self).hub().published(n@)
            },
            out is Err ==> {
                &&& final(self).history() == old(self).history()
                &&& final(self).retained() == old(self).retained()
                &&& final(self).hub() == old(self).hub()
            },
    {
        let len = segment.len();
        if len == 0 || !is_linked(segment) {
            return Err(TrackerError::InvalidSegment);
        }
        let ghost w = self.window@;
        let ghost s = segment@;
        let ghost history = self.history@;
        let (j, i) = match locate(&self.window, segment) {
            Some(found) => found,
            None => {
                return Err(TrackerError::DeepReorgUnsupported);
            },
        };
        if j == len {
            proof {
                assert(resolved(w, s, j as int, i as int) == Err::<NotificationView, TrackerError>(
                    TrackerError::NothingNew,
                ));
            }
            return Err(TrackerError::NothingNew);
        }
        if self.window[i].number > segment[j].number {
            proof {
                assert(resolved(w, s, j as int, i as int) == Err::<NotificationView, TrackerError>(
                    TrackerError::InvalidSegment,
                ));
            }
            return Err(TrackerError::InvalidSegment);
        }
        proof {
            if j > 0 {
                assert(follows(s[j - 1], s[j as int]));
            }
            assert(follows(w[i as int], s[j as int]));
        }
        let adopted = copy_from(segment, j);
        let notification = if i == self.window.len() - 1 {
            ChainNotification::Commit { new: adopted }
        } else {
            ChainNotification::Reorg { old: copy_from(&self.window, i + 1), new: adopted }
        };
        let ghost n = notification@;
        proof {
            assert(Ok::<NotificationView, TrackerError>(n) == resolved(w, s, j as int, i as int));
            lemma_fork_applies(history, w, s, j as int, i as int, n);
            assert(!on_chain(w, anchor(s, j + 1)));
            assert(n.adopted()[0] == s[j as int]);
            lemma_apply_keeps_linked(n, history);
            lemma_window_follows(history, w, n, self.max_depth as nat + 1);
            assert(w.take(i + 1) + s.skip(j as int) == n.apply(w));
        }
        splice(&mut self.window, i + 1, segment, j, self.max_depth);
        self.history = Ghost(n.apply(history));
        self.hub.publish(&notification);
        Ok(notification)
    }

    /// Adds a subscriber and returns its identifier; `None` where the
    /// identifiers are used up.
    pub fn subscribe(&mut self) -> (out: Option<u64>)
        requires
            old(self).wf(),
        ensures
            final(self).wf(),
            final(self).history() == old(self).history(),
            final(self).retained() == old(self).retained(),
            final(self).max_depth() == old(self).max_depth(),
            old(self).hub().next_id < u64::MAX ==> {
                &&& out == Some(old(self).hub().next_id as u64)
                &&& final(self).hub() == old(self).hub().subscribed()
            },
            old(self).hub().next_id >= u64::MAX ==> {
                &&& out.is_none()
                &&& final(self).hub() == old(self).hub()
            },
    {
        self.hub.subscribe()
    }

    /// Removes the subscriber `id`; says whether there was one.
    pub fn unsubscribe(&mut self, id: u64) -> (out: bool)
        requires
            old(self).wf(),
        ensures
            final(self).wf(),
            final(self).history() == old(self).history(),
            final(self).retained() == old(self).retained(),
            final(self).max_depth() == old(self).max_depth(),
            out == old(self).hub().has(id),
            final(self).hub() == old(self).hub().unsubscribed(id),
    {
        self.hub.unsubscribe(id)
    }

    /// Hands the subscriber `id` its next notification, in the order in which
    /// they were published; `None` where it has been handed them all. A
    /// subscriber that fell behind is answered `Lagged`, once, and removed.
    pub fn poll(&mut self, id: u64) -> (out: Result<Option<ChainNotification>, SubscriptionError>)
        requires
            old(self).wf(),
        ensures
            final(self).wf(),
            final(self).history() == old(self).history(),
            final(self).retained() == old(self).retained(),
            final(self).max_depth() == old(self).max_depth(),
            answer_view(out) == old(self).hub().poll_result(id),
            final(self).hub() == old(self).hub().polled(id),
    {
        self.hub.poll(id)
    }
}

/// A segment that forks off a retained block describes a change of the whole
/// chain and of its retained part alike.
proof fn lemma_fork_applies(
    history: Seq<BlockRef>,
    w: Seq<BlockRef>,
    s: Seq<BlockRef>,
    j: int,
    i: int,
    n: NotificationView,
)
    requires
        linked(history),
        linked(s),
        1 <= w.len() <= history.len(),
        w == history.skip(history.len() - w.len()),
        0 <= j < s.len(),
        0 <= i < w.len(),
        follows(w[i], s[j]),
        resolved(w, s, j, i) == Ok::<NotificationView, TrackerError>(n),
    ensures
        n.applies_to(history),
        n.applies_to(w),
{
    let shift = history.len() - w.len();
    let adopted = s.skip(j);
    let discarded = w.skip(i + 1);
    assert(n.adopted() == adopted);
    assert(n.discarded() == discarded) by {
        if i == w.len() - 1 {
            assert(discarded =~= Seq::<BlockRef>::empty());
        }
    }
    assert forall|k: int| 0 < k < adopted.len() implies follows(
        adopted[k - 1],
        #[trigger] adopted[k],
    ) by {
        assert(adopted[k] == s[k + j]);
        assert(follows(s[k + j - 1], s[k + j]));
    }
    assert forall|k: int| 0 < k < discarded.len() implies follows(
        discarded[k - 1],
        #[trigger] discarded[k],
    ) by {
        assert(discarded[k] == history[shift + i + 1 + k]);
        assert(follows(history[shift + i + 1 + k - 1], history[shift + i + 1 + k]));
    }
    if i < w.len() - 1 {
        assert(discarded[0] == history[shift + i + 1]);
        assert(follows(history[shift + i + 1 - 1], history[shift + i + 1]));
        assert(w[i] == history[shift + i]);
    }
    let cut = history.len() - discarded.len();
    assert(history.subrange(cut, history.len() as int) =~= discarded);
    assert(history[cut - 1] == w[i]);
    let wcut = w.len() - discarded.len();
    assert(w.subrange(wcut, w.len() as int) =~= discarded);
}

} // verus!
