use vstd::prelude::*;

use crate::types::{info_le, BlockInfo, CommitDecision, OrderedBlock, OrderedBlockView};

verus! {

/// An ordered block whose payloads are all at hand, with the commit
/// decision for it once one has arrived.
pub struct OrderedEntry {
    pub block: OrderedBlock,
    pub decision: Option<CommitDecision>,
}

pub struct OrderedView {
    pub block: OrderedBlockView,
    pub decision: Option<CommitDecision>,
}

impl View for OrderedEntry {
    type V = OrderedView;

    open spec fn view(&self) -> OrderedView {
        OrderedView { block: self.block@, decision: self.decision }
    }
}

/// The position of the last entry whose proof covers (epoch, round), or -1.
pub open spec fn ordered_index(s: Seq<OrderedView>, epoch: u64, round: u64) -> int
    decreases s.len(),
{
    if s.len() == 0 {
        -1
    } else if s.last().block.proof.epoch == epoch && s.last().block.proof.round == round {
        s.len() - 1
    } else {
        ordered_index(s.drop_last(), epoch, round)
    }
}

pub proof fn lemma_ordered_index(s: Seq<OrderedView>, epoch: u64, round: u64)
    ensures
        -1 <= ordered_index(s, epoch, round) < s.len(),
        ordered_index(s, epoch, round) >= 0 ==> ({
            let p = s[ordered_index(s, epoch, round)].block.proof;
            p.epoch == epoch && p.round == round
        }),
        ordered_index(s, epoch, round) == -1 ==> forall|i: int|
            0 <= i < s.len() ==> !(#[trigger] s[i].block.proof.epoch == epoch
                && s[i].block.proof.round == round),
    decreases s.len(),
{
    if s.len() > 0 {
        lemma_ordered_index(s.drop_last(), epoch, round);
        if ordered_index(s, epoch, round) == -1 {
            assert forall|i: int| 0 <= i < s.len() implies !(#[trigger] s[i].block.proof.epoch
                == epoch && s[i].block.proof.round == round) by {
                if i < s.len() - 1 {
                    assert(s[i] == s.drop_last()[i]);
                }
            }
        }
    }
}

pub open spec fn ordered_insert(s: Seq<OrderedView>, b: OrderedBlockView, cap: nat) -> Seq<OrderedView> {
    if s.len() < cap {
        s.push(OrderedView { block: b, decision: None })
    } else {
        s
    }
}

pub open spec fn ordered_kept(li: BlockInfo) -> spec_fn(OrderedView) -> bool {
    |e: OrderedView| !info_le(e.block.proof, li)
}

pub open spec fn ordered_purge(s: Seq<OrderedView>, li: BlockInfo) -> Seq<OrderedView> {
    s.filter(ordered_kept(li))
}

/// Payload-complete, proof-verified blocks awaiting execution, in the order
/// in which they were linked to the chain, bounded in number.
pub struct OrderedBlockStore {
    entries: Vec<OrderedEntry>,
    max_entries: u64,
}

impl View for OrderedBlockStore {
    type V = Seq<OrderedView>;

    closed spec fn view(&self) -> Seq<OrderedView> {
        self.entries@.map_values(|e: OrderedEntry| e@)
    }
}

impl OrderedBlockStore {
    pub closed spec fn capacity(&self) -> nat {
        self.max_entries as nat
    }

    pub fn new(max_entries: u64) -> (r: Self)
        ensures
            r@ == Seq::<OrderedView>::empty(),
            r.capacity() == max_entries,
    {
        let r = OrderedBlockStore { entries: Vec::new(), max_entries };
        assert(r@ =~= Seq::<OrderedView>::empty());
        r
    }

    pub fn len(&self) -> (r: usize)
        ensures
            r == self@.len(),
    {
        self.entries.len()
    }

    pub fn has_room(&self) -> (r: bool)
        ensures
            r == (self@.len() < self.capacity()),
    {
        (self.entries.len() as u64) < self.max_entries
    }

    pub fn block_at(&self, k: usize) -> (r: &OrderedBlock)
        requires
            k < self@.len(),
        ensures
            r@ == self@[k as int].block,
    {
        &self.entries[k].block
    }

    pub fn decision_at(&self, k: usize) -> (r: Option<CommitDecision>)
        requires
            k < self@.len(),
        ensures
            r == self@[k as int].decision,
    {
        self.entries[k].decision
    }

    /// The proof of the newest block, if there is one.
    pub fn get_last_ordered_block(&self) -> (r: Option<BlockInfo>)
        ensures
            r.is_none() <==> self@.len() == 0,
            r.is_some() ==> r.unwrap() == self@.last().block.proof,
    {
        let n = self.entries.len();
        if n == 0 {
            None
        } else {
            Some(self.entries[n - 1].block.proof)
        }
    }

    /// Where the block whose proof covers (epoch, round) stands, if there is one.
    pub fn find(&self, epoch: u64, round: u64) -> (r: Option<usize>)
        ensures
            r.is_none() <==> ordered_index(self@, epoch, round) == -1,
            r.is_some() ==> r.unwrap() as int == ordered_index(self@, epoch, round),
    {
        let mut i: usize = self.entries.len();
        assert(self@.take(i as int) =~= self@);
        while i > 0
            invariant
                i <= self@.len(),
                self@.len() == self.entries@.len(),
                ordered_index(self@, epoch, round) == ordered_index(self@.take(i as int), epoch, round),
            decreases i,
        {
            let p = self.entries[i - 1].block.proof;
            assert(self@.take(i as int).drop_last() =~= self@.take(i - 1));
            assert(self@[i - 1] == self.entries@[i - 1]@);
            if p.epoch == epoch && p.round == round {
                return Some(i - 1);
            }
            i = i - 1;
        }
        None
    }

    /// Appends a block while there is room; a full store drops it.
    pub fn insert_ordered_block(&mut self, block: OrderedBlock)
        ensures
            final(self)@ == ordered_insert(old(self)@, block@, old(self).capacity()),
            final(self).capacity() == old(self).capacity(),
    {
        let ghost s = self@;
        let ghost bv = block@;
        if (self.entries.len() as u64) < self.max_entries {
            self.entries.push(OrderedEntry { block, decision: None });
            assert(self@ =~= s.push(OrderedView { block: bv, decision: None }));
        }
    }

    /// Attaches a commit decision to the entry at `k`.
    pub fn update_commit_decision(&mut self, k: usize, decision: CommitDecision)
        requires
            k < old(self)@.len(),
        ensures
            final(self)@ == old(self)@.update(
                k as int,
                OrderedView { block: old(self)@[k as int].block, decision: Some(decision) },
            ),
            final(self).capacity() == old(self).capacity(),
    {
        let ghost s = self@;
        self.entries[k].decision = Some(decision);
        assert(self@ =~= s.update(
            k as int,
            OrderedView { block: s[k as int].block, decision: Some(decision) },
        ));
    }

    /// Removes every block whose proof is at or below `li`.
    pub fn remove_blocks_for_commit(&mut self, li: &BlockInfo)
        ensures
            final(self)@ == ordered_purge(old(self)@, *li),
            final(self).capacity() == old(self).capacity(),
    {
        let ghost s = self@;
        let mut kept: Vec<OrderedEntry> = Vec::new();
        let mut i: usize = 0;
        while i < self.entries.len()
            invariant
                self@ == s,
                s.len() == self.entries@.len(),
                i <= s.len(),
                kept@.map_values(|e: OrderedEntry| e@) == s.take(i as int).filter(ordered_kept(*li)),
            decreases s.len() - i,
        {
            let b = &self.entries[i].block;
            assert(s[i as int] == self.entries@[i as int]@);
            assert(s.take(i + 1).drop_last() =~= s.take(i as int));
            assert(s.take(i + 1).last() == s[i as int]);
            proof { reveal(Seq::filter); }
            let low = b.proof.epoch < li.epoch || (b.proof.epoch == li.epoch && b.proof.round
                <= li.round);
            if !low {
                let ghost kv = kept@;
                let e = OrderedEntry { block: b.duplicate(), decision: self.entries[i].decision };
                kept.push(e);
                assert(kept@.map_values(|e: OrderedEntry| e@) =~= kv.map_values(
                    |e: OrderedEntry| e@,
                ).push(s[i as int]));
            }
            i = i + 1;
        }
        assert(s.take(s.len() as int) =~= s);
        self.entries = kept;
    }

    pub fn clear_all_ordered_blocks(&mut self)
        ensures
            final(self)@ == Seq::<OrderedView>::empty(),
            final(self).capacity() == old(self).capacity(),
    {
        self.entries = Vec::new();
        assert(self@ =~= Seq::<OrderedView>::empty());
    }
}

} // verus!
