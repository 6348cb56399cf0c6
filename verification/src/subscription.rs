//! Delivery of chain notifications to subscribers, each with a bounded queue
//! of its own.
//!
//! A notification that is published joins the queue of every subscriber that
//! has room for it. A subscriber whose queue is full lags: its queue is
//! dropped, its next poll is answered with `Lagged`, and it is removed. What
//! happens to one subscriber never depends on another.

use crate::types::ChainNotification;
use crate::types::NotificationView;
use vstd::prelude::*;

verus! {

/// Why a poll hands out no notification.
#[derive(Clone, Copy, Debug, PartialEq, Eq, Structural)]
pub enum SubscriptionError {
    /// The subscriber fell behind and lost notifications. It is told so once
    /// and is then no longer subscribed.
    Lagged,
    /// Nobody is subscribed under this identifier.
    Closed,
}

/// The mathematical content of one subscription.
pub struct SubscriberView {
    pub id: u64,
    /// The notifications that wait to be polled, oldest first.
    pub pending: Seq<NotificationView>,
    pub lagged: bool,
    /// How many published notifications lie before the next one to hand out.
    pub next: nat,
}

/// The mathematical content of a [`SubscriptionHub`].
pub struct HubView {
    /// Every notification published so far.
    pub log: Seq<NotificationView>,
    pub subscribers: Seq<SubscriberView>,
    /// The number of notifications that a subscriber's queue holds at most.
    pub capacity: nat,
    /// The identifier that the next subscriber gets.
    pub next_id: nat,
}

/// A subscriber when `n` is published to a queue of at most `capacity`.
pub open spec fn deliver(s: SubscriberView, n: NotificationView, capacity: nat) -> SubscriberView {
    if s.lagged {
        s
    } else if s.pending.len() < capacity {
        SubscriberView { id: s.id, pending: s.pending.push(n), lagged: false, next: s.next }
    } else {
        SubscriberView { id: s.id, pending: Seq::empty(), lagged: true, next: s.next }
    }
}

/// A subscriber that does not lag holds exactly the published notifications
/// that it was not handed yet; one that lags holds none.
pub open spec fn in_step(s: SubscriberView, log: Seq<NotificationView>, capacity: nat) -> bool {
    &&& s.pending.len() <= capacity
    &&& s.next <= log.len()
    &&& if s.lagged {
        s.pending.len() == 0
    } else {
        s.pending == log.skip(s.next as int)
    }
}

impl HubView {
    /// Somebody is subscribed under `id`.
    pub open spec fn has(self, id: u64) -> bool {
        exists|i: int| 0 <= i < self.subscribers.len() && (#[trigger] self.subscribers[i]).id == id
    }

    /// Where the subscriber `id` stands.
    pub open spec fn index_of(self, id: u64) -> int {
        choose|i: int| 0 <= i < self.subscribers.len() && (#[trigger] self.subscribers[i]).id == id
    }

    /// Identifiers are given once, and every subscriber is in step with the log.
    pub open spec fn wf(self) -> bool {
        &&& self.next_id <= u64::MAX
        &&& forall|i: int|
            0 <= i < self.subscribers.len() ==> in_step(
                #[trigger] self.subscribers[i],
                self.log,
                self.capacity,
            ) && self.subscribers[i].id < self.next_id
        &&& forall|i: int, j: int|
            0 <= i < j < self.subscribers.len() ==> (#[trigger] self.subscribers[i]).id != (
            #[trigger] self.subscribers[j]).id
    }

    /// The hub after one more subscriber joined, at the end of the log.
    pub open spec fn subscribed(self) -> HubView {
        HubView {
            log: self.log,
            subscribers: self.subscribers.push(
                SubscriberView {
                    id: self.next_id as u64,
                    pending: Seq::empty(),
                    lagged: false,
                    next: self.log.len(),
                },
            ),
            capacity: self.capacity,
            next_id: self.next_id + 1,
        }
    }

    /// The hub after the subscriber `id`, if there is one, left.
    pub open spec fn unsubscribed(self, id: u64) -> HubView {
        if self.has(id) {
            HubView {
                log: self.log,
                subscribers: self.subscribers.remove(self.index_of(id)),
                capacity: self.capacity,
                next_id: self.next_id,
            }
        } else {
            self
        }
    }

    /// The hub after `n` was published.
    pub open spec fn published(self, n: NotificationView) -> HubView {
        HubView {
            log: self.log.push(n),
            subscribers: self.subscribers.map_values(
                |s: SubscriberView| deliver(s, n, self.capacity),
            ),
            capacity: self.capacity,
            next_id: self.next_id,
        }
    }

    /// What a poll of `id` is answered: `Closed` where nobody is subscribed
    /// under it, `Lagged` where the subscriber lags, else the oldest
    /// notification of its queue, if there is one.
    pub open spec fn poll_result(self, id: u64) -> Result<
        Option<NotificationView>,
        SubscriptionError,
    > {
        if !self.has(id) {
            Err(SubscriptionError::Closed)
        } else {
            let s = self.subscribers[self.index_of(id)];
            if s.lagged {
                Err(SubscriptionError::Lagged)
            } else if s.pending.len() == 0 {
                Ok(None)
            } else {
                Ok(Some(s.pending[0]))
            }
        }
    }

    /// The hub after a poll of `id`: a subscriber that lags is removed, one
    /// that is handed a notification no longer holds it.
    pub open spec fn polled(self, id: u64) -> HubView {
        if !self.has(id) {
            self
        } else {
            let i = self.index_of(id);
            let s = self.subscribers[i];
            if s.lagged {
                HubView {
                    log: self.log,
                    subscribers: self.subscribers.remove(i),
                    capacity: self.capacity,
                    next_id: self.next_id,
                }
            } else if s.pending.len() == 0 {
                self
            } else {
                HubView {
                    log: self.log,
                    subscribers: self.subscribers.update(
                        i,
                        SubscriberView {
                            id: s.id,
                            pending: s.pending.skip(1),
                            lagged: false,
                            next: s.next + 1,
                        },
                    ),
                    capacity: self.capacity,
                    next_id: self.next_id,
                }
            }
        }
    }
}

/// The content of what a poll returned.
pub open spec fn answer_view(out: Result<Option<ChainNotification>, SubscriptionError>) -> Result<
    Option<NotificationView>,
    SubscriptionError,
> {
    match out {
        Ok(Some(n)) => Ok(Some(n@)),
        Ok(None) => Ok(None),
        Err(e) => Err(e),
    }
}

/// Among subscribers with distinct identifiers, the subscriber `id` is where
/// any subscriber with that identifier is found.
pub proof fn lemma_index_of_is(h: HubView, id: u64, i: int)
    requires
        h.wf(),
        0 <= i < h.subscribers.len(),
        h.subscribers[i].id == id,
    ensures
        h.has(id),
        h.index_of(id) == i,
{
    let c = h.index_of(id);
    if c < i {
        assert(h.subscribers[c].id != h.subscribers[i].id);
    } else if i < c {
        assert(h.subscribers[i].id != h.subscribers[c].id);
    }
}

/// What is published reaches each subscriber by its own state alone: one
/// that has room gets the notification at the end of its queue, whatever the
/// state of the others; one whose queue is full lags.
pub proof fn lemma_publish_is_per_subscriber(h: HubView, n: NotificationView, i: int)
    requires
        0 <= i < h.subscribers.len(),
    ensures
        h.published(n).subscribers.len() == h.subscribers.len(),
        h.published(n).subscribers[i] == deliver(h.subscribers[i], n, h.capacity),
        !h.subscribers[i].lagged && h.subscribers[i].pending.len() < h.capacity ==> {
            &&& !h.published(n).subscribers[i].lagged
            &&& h.published(n).subscribers[i].pending == h.subscribers[i].pending.push(n)
        },
        !h.subscribers[i].lagged && h.subscribers[i].pending.len() >= h.capacity
            ==> h.published(n).subscribers[i].lagged,
{
}

/// Every operation keeps the hub well formed.
pub proof fn lemma_operations_keep_wf(h: HubView, n: NotificationView, id: u64)
    requires
        h.wf(),
    ensures
        h.published(n).wf(),
        h.polled(id).wf(),
        h.unsubscribed(id).wf(),
        h.next_id < u64::MAX ==> h.subscribed().wf(),
{
    let p = h.published(n);
    assert forall|i: int| 0 <= i < p.subscribers.len() implies in_step(
        #[trigger] p.subscribers[i],
        p.log,
        p.capacity,
    ) && p.subscribers[i].id < p.next_id by {
        let s = h.subscribers[i];
        assert(in_step(s, h.log, h.capacity));
        if !s.lagged && s.pending.len() < h.capacity {
            assert(s.pending.push(n) == h.log.push(n).skip(s.next as int));
        }
    }
    assert forall|i: int, j: int| 0 <= i < j < p.subscribers.len() implies (
    #[trigger] p.subscribers[i]).id != (#[trigger] p.subscribers[j]).id by {
        assert(h.subscribers[i].id != h.subscribers[j].id);
    }
    if h.has(id) {
        let k = h.index_of(id);
        let s = h.subscribers[k];
        let gone = h.subscribers.remove(k);
        assert forall|i: int| 0 <= i < gone.len() implies in_step(
            #[trigger] gone[i],
            h.log,
            h.capacity,
        ) && gone[i].id < h.next_id by {
            if i < k {
                assert(gone[i] == h.subscribers[i]);
            } else {
                assert(gone[i] == h.subscribers[i + 1]);
            }
        }
        assert forall|i: int, j: int| 0 <= i < j < gone.len() implies (#[trigger] gone[i]).id != (
        #[trigger] gone[j]).id by {
            let a = if i < k {
                i
            } else {
                i + 1
            };
            let b = if j < k {
                j
            } else {
                j + 1
            };
            assert(gone[i] == h.subscribers[a] && gone[j] == h.subscribers[b]);
        }
        if !s.lagged && s.pending.len() > 0 {
            let q = h.polled(id);
            assert(in_step(s, h.log, h.capacity));
            assert(s.pending.skip(1) == h.log.skip(s.next as int + 1));
            assert forall|i: int| 0 <= i < q.subscribers.len() implies in_step(
                #[trigger] q.subscribers[i],
                q.log,
                q.capacity,
            ) && q.subscribers[i].id < q.next_id by {
                if i != k {
                    assert(q.subscribers[i] == h.subscribers[i]);
                }
            }
            assert forall|i: int, j: int| 0 <= i < j < q.subscribers.len() implies (
            #[trigger] q.subscribers[i]).id != (#[trigger] q.subscribers[j]).id by {
                assert(q.subscribers[i].id == h.subscribers[i].id);
                assert(q.subscribers[j].id == h.subscribers[j].id);
            }
        }
    }
    if h.next_id < u64::MAX {
        let g = h.subscribed();
        assert forall|i: int| 0 <= i < g.subscribers.len() implies in_step(
            #[trigger] g.subscribers[i],
            g.log,
            g.capacity,
        ) && g.subscribers[i].id < g.next_id by {
            if i < h.subscribers.len() {
                assert(g.subscribers[i] == h.subscribers[i]);
            } else {
                assert(g.subscribers[i].pending == h.log.skip(h.log.len() as int));
            }
        }
        assert forall|i: int, j: int| 0 <= i < j < g.subscribers.len() implies (
        #[trigger] g.subscribers[i]).id != (#[trigger] g.subscribers[j]).id by {
            assert(g.subscribers[i] == h.subscribers[i]);
            if j < h.subscribers.len() {
                assert(g.subscribers[j] == h.subscribers[j]);
            }
        }
    }
}

/// A subscriber is handed the published notifications one by one, in the
/// order of the log and without a gap; where it caught up it is handed none.
pub proof fn lemma_poll_follows_log(h: HubView, id: u64)
    requires
        h.wf(),
        h.has(id),
        !h.subscribers[h.index_of(id)].lagged,
    ensures
        h.polled(id).has(id),
        h.polled(id).index_of(id) == h.index_of(id),
        h.subscribers[h.index_of(id)].next == h.log.len() ==> {
            &&& h.poll_result(id) == Ok::<Option<NotificationView>, SubscriptionError>(None)
            &&& h.polled(id) == h
        },
        h.subscribers[h.index_of(id)].next < h.log.len() ==> {
            &&& h.poll_result(id) == Ok::<Option<NotificationView>, SubscriptionError>(
                Some(h.log[h.subscribers[h.index_of(id)].next as int]),
            )
            &&& h.polled(id).subscribers[h.index_of(id)].next == h.subscribers[h.index_of(
                id,
            )].next + 1
            &&& !h.polled(id).subscribers[h.index_of(id)].lagged
        },
{
    let k = h.index_of(id);
    let s = h.subscribers[k];
    assert(in_step(s, h.log, h.capacity));
    lemma_operations_keep_wf(h, h.log[0], id);
    if s.pending.len() > 0 {
        assert(s.pending[0] == h.log[s.next as int]);
        assert(h.polled(id).subscribers[k].id == id);
    }
    lemma_index_of_is(h.polled(id), id, k);
}

/// A subscriber that lags is told so by its next poll and is removed by it:
/// every later poll under its identifier is answered `Closed`, also after
/// other subscribers joined and more was published.
pub proof fn lemma_lagged_is_told_once(h: HubView, id: u64, n: NotificationView)
    requires
        h.wf(),
        h.has(id),
        h.subscribers[h.index_of(id)].lagged,
    ensures
        h.poll_result(id) == Err::<Option<NotificationView>, SubscriptionError>(
            SubscriptionError::Lagged,
        ),
        !h.polled(id).has(id),
        h.polled(id).poll_result(id) == Err::<Option<NotificationView>, SubscriptionError>(
            SubscriptionError::Closed,
        ),
        !h.polled(id).published(n).has(id),
        !h.polled(id).subscribed().has(id),
{
    let k = h.index_of(id);
    let q = h.polled(id);
    assert forall|i: int| 0 <= i < q.subscribers.len() implies (#[trigger] q.subscribers[i]).id
        != id by {
        if i < k {
            assert(q.subscribers[i] == h.subscribers[i]);
            assert(h.subscribers[i].id != h.subscribers[k].id);
        } else {
            assert(q.subscribers[i] == h.subscribers[i + 1]);
            assert(h.subscribers[k].id != h.subscribers[i + 1].id);
        }
    }
    let p = q.published(n);
    assert forall|i: int| 0 <= i < p.subscribers.len() implies (#[trigger] p.subscribers[i]).id
        != id by {
        assert(p.subscribers[i].id == q.subscribers[i].id);
    }
    let g = q.subscribed();
    assert forall|i: int| 0 <= i < g.subscribers.len() implies (#[trigger] g.subscribers[i]).id
        != id by {
        if i < q.subscribers.len() {
            assert(g.subscribers[i] == q.subscribers[i]);
        } else {
            assert(h.subscribers[k].id < h.next_id);
        }
    }
}

/// One subscription.
pub struct Subscriber {
    id: u64,
    queue: Vec<ChainNotification>,
    lagged: bool,
    next: Ghost<nat>,
}

impl View for Subscriber {
    type V = SubscriberView;

    closed spec fn view(&self) -> SubscriberView {
        SubscriberView {
            id: self.id,
            pending: self.queue@.map_values(|n: ChainNotification| n@),
            lagged: self.lagged,
            next: self.next@,
        }
    }
}

/// The subscribers of a stream of chain notifications.
pub struct SubscriptionHub {
    subscribers: Vec<Subscriber>,
    capacity: usize,
    next_id: u64,
    log: Ghost<Seq<NotificationView>>,
}

impl View for SubscriptionHub {
    type V = HubView;

    closed spec fn view(&self) -> HubView {
        HubView {
            log: self.log@,
            subscribers: self.subscribers@.map_values(|s: Subscriber| s@),
            capacity: self.capacity as nat,
            next_id: self.next_id as nat,
        }
    }
}

impl SubscriptionHub {
    /// A hub without subscribers, whose queues will hold up to `capacity`
    /// notifications each.
    pub fn new(capacity: usize) -> (out: SubscriptionHub)
        ensures
            out@.wf(),
            out@.log == Seq::<NotificationView>::empty(),
            out@.subscribers == Seq::<SubscriberView>::empty(),
            out@.capacity == capacity,
            out@.next_id == 0,
    {
        let out = SubscriptionHub {
            subscribers: Vec::new(),
            capacity,
            next_id: 0,
            log: Ghost(Seq::empty()),
        };
        assert(out@.subscribers == Seq::<SubscriberView>::empty());
        out
    }

    /// The number of subscribers.
    pub fn subscriber_count(&self) -> (n: usize)
        ensures
            n == self@.subscribers.len(),
    {
        self.subscribers.len()
    }

    fn find(&self, id: u64) -> (out: Option<usize>)
        requires
            self@.wf(),
        ensures
            out.is_some() == self@.has(id),
            out matches Some(i) ==> i < self@.subscribers.len() && self@.index_of(id) == i
                && self@.subscribers[i as int].id == id,
    {
        let mut i: usize = 0;
        while i < self.subscribers.len()
            invariant
                i <= self.subscribers.len(),
                self@.wf(),
                forall|j: int| 0 <= j < i ==> (#[trigger] self@.subscribers[j]).id != id,
            decreases self.subscribers.len() - i,
        {
            if self.subscribers[i].id == id {
                proof {
                    assert(self@.subscribers[i as int] == self.subscribers@[i as int]@);
                    lemma_index_of_is(self@, id, i as int);
                }
                return Some(i);
            }
            proof {
                assert(self@.subscribers[i as int] == self.subscribers@[i as int]@);
            }
            i = i + 1;
        }
        None
    }

    /// Adds a subscriber, which will be handed every notification published
    /// from now on, and returns its identifier; `None` where the identifiers
    /// are used up.
    pub fn subscribe(&mut self) -> (out: Option<u64>)
        requires
            old(self)@.wf(),
        ensures
            final(self)@.wf(),
            old(self)@.next_id < u64::MAX ==> {
                &&& out == Some(old(self)@.next_id as u64)
                &&& final(self)@ == old(self)@.subscribed()
            },
            old(self)@.next_id >= u64::MAX ==> out.is_none() && final(self)@ == old(self)@,
    {
        if self.next_id == u64::MAX {
            return None;
        }
        let id = self.next_id;
        proof {
            lemma_operations_keep_wf(self@, arbitrary(), 0);
        }
        self.subscribers.push(
            Subscriber { id, queue: Vec::new(), lagged: false, next: Ghost(self.log@.len()) },
        );
        self.next_id = id + 1;
        proof {
            let want = old(self)@.subscribed();
            assert(self@.subscribers =~= want.subscribers) by {
                assert forall|i: int| 0 <= i < want.subscribers.len() implies self@.subscribers[i]
                    == want.subscribers[i] by {
                    if i < old(self)@.subscribers.len() {
                        assert(self.subscribers@[i] == old(self).subscribers@[i]);
                    } else {
                        assert(self.subscribers@[i]@.pending =~= Seq::<NotificationView>::empty());
                    }
                }
            }
        }
        Some(id)
    }

    /// Removes the subscriber `id`; says whether there was one.
    pub fn unsubscribe(&mut self, id: u64) -> (out: bool)
        requires
            old(self)@.wf(),
        ensures
            final(self)@.wf(),
            out == old(self)@.has(id),
            final(self)@ == old(self)@.unsubscribed(id),
    {
        proof {
            lemma_operations_keep_wf(self@, arbitrary(), id);
        }
        match self.find(id) {
            Some(i) => {
                self.subscribers.remove(i);
                proof {
                    assert(self@.subscribers =~= old(self)@.subscribers.remove(i as int));
                }
                true
            },
            None => false,
        }
    }

    /// Publishes a notification: it joins the queue of every subscriber that
    /// does not lag and has room; a subscriber whose queue is full lags from
    /// now on and loses its queue.
    pub fn publish(&mut self, notification: &ChainNotification)
        requires
            old(self)@.wf(),
        ensures
            final(self)@.wf(),
            final(self)@ == old(self)@.published(notification@),
    {
        proof {
            lemma_operations_keep_wf(self@, notification@, 0);
        }
        let ghost before = self@;
        let n = self.subscribers.len();
        let mut i: usize = 0;
        while i < n
            invariant
                i <= n,
                n == self.subscribers@.len(),
                n == before.subscribers.len(),
                self.capacity == before.capacity,
                self.next_id == before.next_id,
                self.log@ == before.log,
                forall|k: int|
                    0 <= k < i ==> (#[trigger] self.subscribers@[k])@ == deliver(
                        before.subscribers[k],
                        notification@,
                        before.capacity,
                    ),
                forall|k: int|
                    i <= k < n ==> (#[trigger] self.subscribers@[k])@ == before.subscribers[k],
            decreases n - i,
        {
            let ghost s = self.subscribers@[i as int]@;
            if !self.subscribers[i].lagged {
                if self.subscribers[i].queue.len() < self.capacity {
                    let copy = notification.duplicate();
                    self.subscribers[i].queue.push(copy);
                    proof {
                        assert(self.subscribers@[i as int]@.pending =~= s.pending.push(
                            notification@,
                        ));
                    }
                } else {
                    self.subscribers[i].queue = Vec::new();
                    self.subscribers[i].lagged = true;
                    proof {
                        assert(self.subscribers@[i as int]@.pending =~= Seq::<
                            NotificationView,
                        >::empty());
                    }
                }
            }
            i = i + 1;
        }
        self.log = Ghost(self.log@.push(notification@));
        proof {
            let want = before.published(notification@);
            assert(self@.subscribers =~= want.subscribers);
        }
    }

    /// Hands the subscriber `id` its next notification, oldest first; `None`
    /// where it has been handed all that was published. A subscriber that
    /// lags is answered `Lagged` and removed; an identifier under which
    /// nobody is subscribed is answered `Closed`.
    pub fn poll(&mut self, id: u64) -> (out: Result<Option<ChainNotification>, SubscriptionError>)
        requires
            old(self)@.wf(),
        ensures
            final(self)@.wf(),
            answer_view(out) == old(self)@.poll_result(id),
            final(self)@ == old(self)@.polled(id),
    {
        proof {
            lemma_operations_keep_wf(self@, arbitrary(), id);
        }
        match self.find(id) {
            None => Err(SubscriptionError::Closed),
            Some(i) => {
                proof {
                    assert(self@.subscribers[i as int] == self.subscribers@[i as int]@);
                }
                if self.subscribers[i].lagged {
                    self.subscribers.remove(i);
                    proof {
                        assert(self@.subscribers =~= old(self)@.subscribers.remove(i as int));
                    }
                    Err(SubscriptionError::Lagged)
                } else if self.subscribers[i].queue.len() == 0 {
                    Ok(None)
                } else {
                    let ghost s = self.subscribers@[i as int]@;
                    let first = self.subscribers[i].queue.remove(0);
                    self.subscribers[i].next = Ghost(s.next + 1);
                    proof {
                        assert(self.subscribers@[i as int]@.pending =~= s.pending.skip(1));
                        assert(self@.subscribers =~= old(self)@.polled(id).subscribers);
                    }
                    Ok(Some(first))
                }
            },
        }
    }
}

} // verus!
