use chain_access::subscription::SubscriptionError;
use chain_access::subscription::SubscriptionHub;
use chain_access::tracker::is_linked;
use chain_access::tracker::CanonicalChainTracker;
use chain_access::tracker::TrackerError;
use chain_access::types::contains_block;
use chain_access::types::copy_blocks;
use chain_access::types::BlockRef;
use chain_access::types::ChainNotification;
use chain_access::types::B256;

fn th(n: u128) -> B256 {
    B256 { hi: 0, lo: n }
}

fn tblock(hash: u128, number: u64, parent: u128) -> BlockRef {
    BlockRef { hash: th(hash), number, parent_hash: th(parent) }
}

#[test]
fn segment_on_head_is_committed() {
    let mut t = CanonicalChainTracker::new(tblock(1, 1, 0), 8, 4);
    let out = t.update(&vec![tblock(2, 2, 1), tblock(3, 3, 2)]);
    assert_eq!(out, Ok(ChainNotification::Commit { new: vec![tblock(2, 2, 1), tblock(3, 3, 2)] }));
    assert_eq!(t.head(), tblock(3, 3, 2));
    assert_eq!(t.retained_len(), 3);
    assert!(t.is_canonical(&tblock(2, 2, 1)));
}

#[test]
fn segment_below_head_is_a_reorg() {
    let mut t = CanonicalChainTracker::new(tblock(1, 1, 0), 8, 4);
    t.update(&vec![tblock(2, 2, 1), tblock(3, 3, 2)]).unwrap();
    let out = t.update(&vec![tblock(12, 2, 1), tblock(13, 3, 12), tblock(14, 4, 13)]);
    assert_eq!(
        out,
        Ok(ChainNotification::Reorg {
            old: vec![tblock(2, 2, 1), tblock(3, 3, 2)],
            new: vec![tblock(12, 2, 1), tblock(13, 3, 12), tblock(14, 4, 13)],
        })
    );
    assert_eq!(t.head(), tblock(14, 4, 13));
    assert!(!t.is_canonical(&tblock(2, 2, 1)));
    assert!(t.is_canonical(&tblock(1, 1, 0)));
    assert!(t.is_canonical(&tblock(13, 3, 12)));
}

#[test]
fn blocks_already_canonical_are_left_out_of_the_notification() {
    let mut t = CanonicalChainTracker::new(tblock(1, 1, 0), 8, 4);
    t.update(&vec![tblock(2, 2, 1), tblock(3, 3, 2)]).unwrap();
    let out = t.update(&vec![tblock(2, 2, 1), tblock(3, 3, 2), tblock(4, 4, 3)]);
    assert_eq!(out, Ok(ChainNotification::Commit { new: vec![tblock(4, 4, 3)] }));
    let out = t.update(&vec![tblock(2, 2, 1), tblock(23, 3, 2)]);
    assert_eq!(
        out,
        Ok(ChainNotification::Reorg {
            old: vec![tblock(3, 3, 2), tblock(4, 4, 3)],
            new: vec![tblock(23, 3, 2)],
        })
    );
}

#[test]
fn segment_without_known_ancestor_is_a_deep_reorg() {
    let mut t = CanonicalChainTracker::new(tblock(1, 1, 0), 8, 4);
    let out = t.update(&vec![tblock(50, 50, 49)]);
    assert_eq!(out, Err(TrackerError::DeepReorgUnsupported));
    assert_eq!(t.head(), tblock(1, 1, 0));
}

#[test]
fn reorg_below_the_retained_blocks_is_unsupported() {
    let mut t = CanonicalChainTracker::new(tblock(1, 1, 0), 1, 4);
    t.update(&vec![tblock(2, 2, 1), tblock(3, 3, 2), tblock(4, 4, 3)]).unwrap();
    assert_eq!(t.retained_len(), 2);
    // one block deep: supported
    let out = t.update(&vec![tblock(14, 4, 3)]);
    assert_eq!(
        out,
        Ok(ChainNotification::Reorg { old: vec![tblock(4, 4, 3)], new: vec![tblock(14, 4, 3)] })
    );
    // two blocks deep: the fork point is no longer retained
    let out = t.update(&vec![tblock(23, 3, 2), tblock(24, 4, 23)]);
    assert_eq!(out, Err(TrackerError::DeepReorgUnsupported));
    assert_eq!(t.head(), tblock(14, 4, 3));
}

#[test]
fn empty_or_unlinked_segment_is_invalid() {
    let mut t = CanonicalChainTracker::new(tblock(1, 1, 0), 8, 4);
    assert_eq!(t.update(&vec![]), Err(TrackerError::InvalidSegment));
    assert_eq!(
        t.update(&vec![tblock(2, 2, 1), tblock(3, 3, 9)]),
        Err(TrackerError::InvalidSegment)
    );
    // the height falls along the segment
    assert_eq!(
        t.update(&vec![tblock(2, 5, 1), tblock(3, 4, 2)]),
        Err(TrackerError::InvalidSegment)
    );
    // the height falls at the fork point
    let mut u = CanonicalChainTracker::new(tblock(1, 7, 0), 8, 4);
    assert_eq!(u.update(&vec![tblock(2, 6, 1)]), Err(TrackerError::InvalidSegment));
    assert_eq!(u.head(), tblock(1, 7, 0));
}

#[test]
fn segment_that_ends_on_the_chain_brings_nothing_new() {
    let mut t = CanonicalChainTracker::new(tblock(1, 1, 0), 8, 4);
    t.update(&vec![tblock(2, 2, 1), tblock(3, 3, 2)]).unwrap();
    assert_eq!(t.update(&vec![tblock(2, 2, 1), tblock(3, 3, 2)]), Err(TrackerError::NothingNew));
    assert_eq!(t.update(&vec![tblock(2, 2, 1)]), Err(TrackerError::NothingNew));
    assert_eq!(t.head(), tblock(3, 3, 2));
}

#[test]
fn equal_heights_are_accepted_along_a_chain() {
    let mut t = CanonicalChainTracker::new(tblock(1, 1, 0), 8, 4);
    let out = t.update(&vec![tblock(2, 1, 1), tblock(3, 1, 2)]);
    assert_eq!(out, Ok(ChainNotification::Commit { new: vec![tblock(2, 1, 1), tblock(3, 1, 2)] }));
}

#[test]
fn linked_says_whether_each_block_follows_the_one_before() {
    assert!(is_linked(&vec![]));
    assert!(is_linked(&vec![tblock(5, 5, 4)]));
    assert!(is_linked(&vec![tblock(5, 5, 4), tblock(6, 6, 5)]));
    assert!(!is_linked(&vec![tblock(5, 5, 4), tblock(6, 6, 4)]));
    assert!(!is_linked(&vec![tblock(5, 5, 4), tblock(6, 4, 5)]));
}

#[test]
fn block_lists_are_copied_and_searched() {
    let blocks = vec![tblock(5, 5, 4), tblock(6, 6, 5)];
    assert_eq!(copy_blocks(&blocks), blocks);
    assert!(contains_block(&blocks, &tblock(6, 6, 5)));
    assert!(!contains_block(&blocks, &tblock(6, 6, 4)));
}

#[test]
fn notification_hands_out_its_blocks() {
    let n = ChainNotification::Reorg { old: vec![tblock(2, 2, 1)], new: vec![tblock(12, 2, 1)] };
    assert_eq!(n.discarded(), vec![tblock(2, 2, 1)]);
    assert_eq!(n.adopted(), vec![tblock(12, 2, 1)]);
    assert_eq!(n.duplicate(), n);
    let c = ChainNotification::Commit { new: vec![tblock(3, 3, 2)] };
    assert_eq!(c.discarded(), vec![]);
    assert_eq!(c.adopted(), vec![tblock(3, 3, 2)]);
    assert_eq!(c.duplicate(), c);
}

#[test]
fn every_subscriber_is_handed_every_notification_in_order() {
    let mut t = CanonicalChainTracker::new(tblock(1, 1, 0), 8, 4);
    let a = t.subscribe().unwrap();
    let b = t.subscribe().unwrap();
    assert_ne!(a, b);
    let n1 = t.update(&vec![tblock(2, 2, 1)]).unwrap();
    let n2 = t.update(&vec![tblock(12, 2, 1), tblock(13, 3, 12)]).unwrap();
    assert_eq!(t.poll(a), Ok(Some(n1.clone())));
    assert_eq!(t.poll(a), Ok(Some(n2.clone())));
    assert_eq!(t.poll(a), Ok(None));
    assert_eq!(t.poll(b), Ok(Some(n1)));
    assert_eq!(t.poll(b), Ok(Some(n2)));
    assert_eq!(t.poll(b), Ok(None));
}

#[test]
fn subscriber_sees_only_what_is_published_after_it_joined() {
    let mut t = CanonicalChainTracker::new(tblock(1, 1, 0), 8, 4);
    t.update(&vec![tblock(2, 2, 1)]).unwrap();
    let a = t.subscribe().unwrap();
    assert_eq!(t.poll(a), Ok(None));
    let n = t.update(&vec![tblock(3, 3, 2)]).unwrap();
    assert_eq!(t.poll(a), Ok(Some(n)));
}

#[test]
fn failed_update_publishes_nothing() {
    let mut t = CanonicalChainTracker::new(tblock(1, 1, 0), 8, 4);
    let a = t.subscribe().unwrap();
    assert!(t.update(&vec![tblock(50, 50, 49)]).is_err());
    assert_eq!(t.poll(a), Ok(None));
}

#[test]
fn slow_subscriber_lags_once_and_the_fast_one_is_not_held_up() {
    let mut hub = SubscriptionHub::new(2);
    let fast = hub.subscribe().unwrap();
    let slow = hub.subscribe().unwrap();
    let mut handed_to_fast = Vec::new();
    let mut handed_to_slow = Vec::new();
    let mut published = Vec::new();
    let mut slow_result = Ok(None);
    for i in 0..6u64 {
        let n = ChainNotification::Commit { new: vec![tblock(i as u128 + 2, i + 2, i as u128 + 1)] };
        hub.publish(&n);
        published.push(n);
        // the fast subscriber polls after every notification
        handed_to_fast.push(hub.poll(fast).unwrap().unwrap());
        // the slow one polls after every second notification
        if i % 2 == 1 && slow_result.is_ok() {
            slow_result = hub.poll(slow);
            if let Ok(Some(n)) = &slow_result {
                handed_to_slow.push(n.clone());
            }
        }
    }
    assert_eq!(handed_to_fast, published);
    // the slow subscriber was handed a prefix of what was published, then told that it lags
    assert_eq!(handed_to_slow, published[..handed_to_slow.len()].to_vec());
    assert_eq!(slow_result, Err(SubscriptionError::Lagged));
    assert_eq!(hub.poll(slow), Err(SubscriptionError::Closed));
    assert_eq!(hub.subscriber_count(), 1);
    assert_eq!(hub.poll(fast), Ok(None));
}

#[test]
fn full_queue_makes_a_subscriber_lag() {
    let mut hub = SubscriptionHub::new(1);
    let a = hub.subscribe().unwrap();
    let n1 = ChainNotification::Commit { new: vec![tblock(2, 2, 1)] };
    let n2 = ChainNotification::Commit { new: vec![tblock(3, 3, 2)] };
    hub.publish(&n1);
    hub.publish(&n2);
    assert_eq!(hub.poll(a), Err(SubscriptionError::Lagged));
    assert_eq!(hub.poll(a), Err(SubscriptionError::Closed));
    // a new subscription gets a new identifier and starts afresh
    let b = hub.subscribe().unwrap();
    assert_ne!(a, b);
    hub.publish(&n1);
    assert_eq!(hub.poll(b), Ok(Some(n1)));
}

#[test]
fn queue_of_no_capacity_lags_at_the_first_notification() {
    let mut hub = SubscriptionHub::new(0);
    let a = hub.subscribe().unwrap();
    assert_eq!(hub.poll(a), Ok(None));
    hub.publish(&ChainNotification::Commit { new: vec![tblock(2, 2, 1)] });
    assert_eq!(hub.poll(a), Err(SubscriptionError::Lagged));
}

#[test]
fn unsubscribed_identifier_is_closed() {
    let mut t = CanonicalChainTracker::new(tblock(1, 1, 0), 8, 4);
    let a = t.subscribe().unwrap();
    assert!(t.unsubscribe(a));
    assert!(!t.unsubscribe(a));
    assert_eq!(t.poll(a), Err(SubscriptionError::Closed));
    assert_eq!(t.poll(77), Err(SubscriptionError::Closed));
}

#[test]
fn tracker_made_with_a_chain_supports_reorgs_from_the_start() {
    let chain = vec![tblock(1, 1, 0), tblock(2, 2, 1), tblock(3, 3, 2), tblock(4, 4, 3)];
    let mut t = CanonicalChainTracker::with_chain(&chain, 2, 4).unwrap();
    assert_eq!(t.head(), tblock(4, 4, 3));
    assert_eq!(t.retained_len(), 3);
    assert!(!t.is_canonical(&tblock(1, 1, 0)));
    let out = t.update(&vec![tblock(13, 3, 2)]);
    assert_eq!(
        out,
        Ok(ChainNotification::Reorg {
            old: vec![tblock(3, 3, 2), tblock(4, 4, 3)],
            new: vec![tblock(13, 3, 2)],
        })
    );
    // a tracker made with the head alone retains nothing to fork from
    let mut alone = CanonicalChainTracker::new(tblock(4, 4, 3), 2, 4);
    assert_eq!(alone.update(&vec![tblock(13, 3, 2)]), Err(TrackerError::DeepReorgUnsupported));
}

#[test]
fn tracker_is_not_made_with_an_empty_or_unlinked_chain() {
    assert!(CanonicalChainTracker::with_chain(&vec![], 2, 4).is_none());
    assert!(CanonicalChainTracker::with_chain(&vec![tblock(1, 1, 0), tblock(2, 2, 9)], 2, 4).is_none());
    assert!(CanonicalChainTracker::with_chain(&vec![tblock(1, 1, 0)], 2, 4).is_some());
    // the largest depth retains every block
    let t = CanonicalChainTracker::with_chain(
        &vec![tblock(1, 1, 0), tblock(2, 2, 1), tblock(3, 3, 2)],
        usize::MAX,
        4,
    )
    .unwrap();
    assert_eq!(t.retained_len(), 3);
}
