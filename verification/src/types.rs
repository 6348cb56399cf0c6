//! The data model shared by every component: block references, canonical
//! chains and the notifications that describe how a chain changes.

use vstd::prelude::*;

verus! {

/// A 256-bit value (a block or transaction hash, a storage word), held as two
/// 128-bit halves.
#[derive(Clone, Copy, Debug, PartialEq, Eq, Structural, Hash)]
pub struct B256 {
    pub hi: u128,
    pub lo: u128,
}

/// A 160-bit account address.
#[derive(Clone, Copy, Debug, PartialEq, Eq, Structural, Hash)]
pub struct Address {
    pub hi: u32,
    pub lo: u128,
}

/// What identifies a block and ties it to its parent.
#[derive(Clone, Copy, Debug, PartialEq, Eq, Structural, Hash)]
pub struct BlockRef {
    pub hash: B256,
    pub number: u64,
    pub parent_hash: B256,
}

/// `next` is a child of `prev`: it names `prev` as its parent and is not lower.
pub open spec fn follows(prev: BlockRef, next: BlockRef) -> bool {
    next.parent_hash == prev.hash && prev.number <= next.number
}

/// A sequence of blocks in which each one follows the one before it.
pub open spec fn linked(c: Seq<BlockRef>) -> bool {
    forall|i: int| 0 < i < c.len() ==> follows(c[i - 1], #[trigger] c[i])
}

/// A change of the canonical chain.
#[derive(Clone, Debug, PartialEq, Eq)]
pub enum ChainNotification {
    /// `new` was appended to the head.
    Commit { new: Vec<BlockRef> },
    /// `old` was discarded from the head and `new` adopted in its place.
    Reorg { old: Vec<BlockRef>, new: Vec<BlockRef> },
}

/// The mathematical content of a [`ChainNotification`].
pub enum NotificationView {
    Commit { new: Seq<BlockRef> },
    Reorg { old: Seq<BlockRef>, new: Seq<BlockRef> },
}

impl NotificationView {
    /// The blocks that leave the canonical chain (none for a commit).
    pub open spec fn discarded(self) -> Seq<BlockRef> {
        match self {
            NotificationView::Commit { .. } => Seq::empty(),
            NotificationView::Reorg { old, .. } => old,
        }
    }

    /// The blocks that join the canonical chain.
    pub open spec fn adopted(self) -> Seq<BlockRef> {
        match self {
            NotificationView::Commit { new } => new,
            NotificationView::Reorg { new, .. } => new,
        }
    }

    /// Both branches are linked, something is adopted, and a reorg discards
    /// at least one block whose parent is also the parent of the first
    /// adopted block.
    pub open spec fn well_formed(self) -> bool {
        &&& self.adopted().len() > 0
        &&& linked(self.adopted())
        &&& linked(self.discarded())
        &&& self is Reorg ==> {
            &&& self.discarded().len() > 0
            &&& self.discarded()[0].parent_hash == self.adopted()[0].parent_hash
        }
    }

    /// The notification describes a change of `chain`: what it discards is
    /// the end of `chain`, a block stays below that, and the first adopted
    /// block follows the block that stays on top.
    pub open spec fn applies_to(self, chain: Seq<BlockRef>) -> bool {
        let cut = chain.len() - self.discarded().len();
        &&& self.well_formed()
        &&& cut >= 1
        &&& chain.subrange(cut, chain.len() as int) == self.discarded()
        &&& follows(chain[cut - 1], self.adopted()[0])
    }

    /// The canonical chain after the change.
    pub open spec fn apply(self, chain: Seq<BlockRef>) -> Seq<BlockRef> {
        chain.take(chain.len() - self.discarded().len()) + self.adopted()
    }
}

impl View for ChainNotification {
    type V = NotificationView;

    open spec fn view(&self) -> NotificationView {
        match self {
            ChainNotification::Commit { new } => NotificationView::Commit { new: new@ },
            ChainNotification::Reorg { old, new } => NotificationView::Reorg {
                old: old@,
                new: new@,
            },
        }
    }
}

/// Applying a notification to a linked chain that it describes gives a linked
/// chain again, whose head is the last adopted block.
pub proof fn lemma_apply_keeps_linked(n: NotificationView, chain: Seq<BlockRef>)
    requires
        linked(chain),
        n.applies_to(chain),
    ensures
        linked(n.apply(chain)),
        n.apply(chain).len() > 0,
        n.apply(chain).last() == n.adopted().last(),
{
    let cut = chain.len() - n.discarded().len();
    let kept = chain.take(cut);
    let next = n.apply(chain);
    assert forall|i: int| 0 < i < next.len() implies follows(next[i - 1], #[trigger] next[i]) by {
        if i < cut {
            assert(next[i] == chain[i]);
            assert(next[i - 1] == chain[i - 1]);
        } else if i == cut {
            assert(next[i] == n.adopted()[0]);
            assert(next[i - 1] == chain[cut - 1]);
        } else {
            assert(next[i] == n.adopted()[i - cut]);
            assert(next[i - 1] == n.adopted()[i - cut - 1]);
        }
    }
}

/// A block of the chain that a notification does not discard is a block of
/// the chain after the change.
pub proof fn lemma_kept_block_stays(n: NotificationView, chain: Seq<BlockRef>, block: BlockRef)
    requires
        n.applies_to(chain),
        chain.contains(block),
        !n.discarded().contains(block),
    ensures
        n.apply(chain).contains(block),
{
    let cut = chain.len() - n.discarded().len();
    let c = choose|c: int| 0 <= c < chain.len() && chain[c] == block;
    if c >= cut {
        assert(chain.subrange(cut, chain.len() as int)[c - cut] == block);
    }
    assert(n.apply(chain)[c] == block);
}

/// Every block that a notification adopts is a block of the chain after the
/// change.
pub proof fn lemma_adopted_block_joins(n: NotificationView, chain: Seq<BlockRef>, k: int)
    requires
        n.applies_to(chain),
        0 <= k < n.adopted().len(),
    ensures
        n.apply(chain).contains(n.adopted()[k]),
{
    let cut = chain.len() - n.discarded().len();
    assert(n.apply(chain)[cut + k] == n.adopted()[k]);
}

/// Copies a list of block references.
pub fn copy_blocks(blocks: &Vec<BlockRef>) -> (out: Vec<BlockRef>)
    ensures
        out@ == blocks@,
{
    let mut out: Vec<BlockRef> = Vec::new();
    let mut i: usize = 0;
    while i < blocks.len()
        invariant
            i <= blocks.len(),
            out@ == blocks@.take(i as int),
        decreases blocks.len() - i,
    {
        out.push(blocks[i]);
        i = i + 1;
    }
    out
}

/// Whether `block` is one of `blocks`.
pub fn contains_block(blocks: &Vec<BlockRef>, block: &BlockRef) -> (out: bool)
    ensures
        out == blocks@.contains(*block),
{
    let mut i: usize = 0;
    while i < blocks.len()
        invariant
            i <= blocks.len(),
            forall|j: int| 0 <= j < i ==> blocks@[j] != *block,
        decreases blocks.len() - i,
    {
        if blocks[i] == *block {
            return true;
        }
        i = i + 1;
    }
    false
}

impl ChainNotification {
    /// The blocks that leave the canonical chain (none for a commit).
    pub fn discarded(&self) -> (out: Vec<BlockRef>)
        ensures
            out@ == self@.discarded(),
    {
        match self {
            ChainNotification::Commit { .. } => Vec::new(),
            ChainNotification::Reorg { old, .. } => copy_blocks(old),
        }
    }

    /// The blocks that join the canonical chain.
    pub fn adopted(&self) -> (out: Vec<BlockRef>)
        ensures
            out@ == self@.adopted(),
    {
        match self {
            ChainNotification::Commit { new } => copy_blocks(new),
            ChainNotification::Reorg { new, .. } => copy_blocks(new),
        }
    }

    /// A notification with the same content.
    pub fn duplicate(&self) -> (out: ChainNotification)
        ensures
            out@ == self@,
    {
        match self {
            ChainNotification::Commit { new } => ChainNotification::Commit { new: copy_blocks(new) },
            ChainNotification::Reorg { old, new } => ChainNotification::Reorg {
                old: copy_blocks(old),
                new: copy_blocks(new),
            },
        }
    }
}

} // verus!
