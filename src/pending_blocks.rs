use vstd::prelude::*;

use crate::payload_store::{all_verified, BlockPayloadStore, PayloadEntry};
use crate::types::{info_le, BlockInfo, BlockRecord, OrderedBlock, OrderedBlockView};

verus! {

/// An ordered block still waiting for payloads, and whether its ordered
/// proof verified against the epoch that was active when it arrived.
pub struct PendingEntry {
    pub block: OrderedBlock,
    pub proof_verified: bool,
}

pub struct PendingView {
    pub block: OrderedBlockView,
    pub proof_verified: bool,
}

impl View for PendingEntry {
    type V = PendingView;

    open spec fn view(&self) -> PendingView {
        PendingView { block: self.block@, proof_verified: self.proof_verified }
    }
}

/// The position of the last entry whose proof covers (epoch, round), or -1.
pub open spec fn pending_index(s: Seq<PendingView>, epoch: u64, round: u64) -> int
    decreases s.len(),
{
    if s.len() == 0 {
        -1
    } else if s.last().block.proof.epoch == epoch && s.last().block.proof.round == round {
        s.len() - 1
    } else {
        pending_index(s.drop_last(), epoch, round)
    }
}

pub proof fn lemma_pending_index(s: Seq<PendingView>, epoch: u64, round: u64)
    ensures
        -1 <= pending_index(s, epoch, round) < s.len(),
        pending_index(s, epoch, round) >= 0 ==> ({
            let p = s[pending_index(s, epoch, round)].block.proof;
            p.epoch == epoch && p.round == round
        }),
        pending_index(s, epoch, round) == -1 ==> forall|i: int|
            0 <= i < s.len() ==> !(#[trigger] s[i].block.proof.epoch == epoch
                && s[i].block.proof.round == round),
    decreases s.len(),
{
    if s.len() > 0 {
        lemma_pending_index(s.drop_last(), epoch, round);
        if pending_index(s, epoch, round) == -1 {
            assert forall|i: int| 0 <= i < s.len() implies !(#[trigger] s[i].block.proof.epoch
                == epoch && s[i].block.proof.round == round) by {
                if i < s.len() - 1 {
                    assert(s[i] == s.drop_last()[i]);
                }
            }
        }
    }
}

/// The entry at the point of `li` removed, if there is one.
pub open spec fn pending_remove_point(s: Seq<PendingView>, li: BlockInfo) -> Seq<PendingView> {
    let k = pending_index(s, li.epoch, li.round);
    if k >= 0 {
        s.remove(k)
    } else {
        s
    }
}

pub open spec fn rechecked(valid: Seq<BlockInfo>) -> spec_fn(PendingView) -> PendingView {
    |e: PendingView| PendingView { block: e.block, proof_verified: valid.contains(e.block.proof) }
}

/// Each buffered block's proof check replaced by whether its proof is among `valid`.
pub open spec fn pending_recheck(s: Seq<PendingView>, valid: Seq<BlockInfo>) -> Seq<PendingView> {
    s.map_values(rechecked(valid))
}

pub fn contains_info(v: &Vec<BlockInfo>, x: BlockInfo) -> (r: bool)
    ensures
        r == v@.contains(x),
{
    let mut i: usize = 0;
    while i < v.len()
        invariant
            i <= v@.len(),
            forall|j: int| 0 <= j < i ==> v@[j] != x,
        decreases v@.len() - i,
    {
        if v[i] == x {
            assert(v@[i as int] == x);
            return true;
        }
        i = i + 1;
    }
    false
}

/// The ordered block holds a block at (epoch, round).
pub open spec fn holds_block_at(b: OrderedBlockView, epoch: u64, round: u64) -> bool {
    exists|i: int|
        0 <= i < b.blocks.len() && #[trigger] b.blocks[i].info.epoch == epoch && b.blocks[i].info.round
            == round
}

/// All payloads of the block are at hand: they travel inside the blocks
/// unless quorum store is on, and then each must be present and verified.
pub open spec fn payloads_ready(payloads: Seq<PayloadEntry>, qs: bool, blocks: Seq<BlockRecord>) -> bool {
    !qs || all_verified(payloads, blocks)
}

/// The position of the last pending entry that holds a block at
/// (epoch, round) and has all its payloads, or -1.
pub open spec fn ready_index(
    s: Seq<PendingView>,
    epoch: u64,
    round: u64,
    payloads: Seq<PayloadEntry>,
    qs: bool,
) -> int
    decreases s.len(),
{
    if s.len() == 0 {
        -1
    } else if holds_block_at(s.last().block, epoch, round) && payloads_ready(
        payloads,
        qs,
        s.last().block.blocks,
    ) {
        s.len() - 1
    } else {
        ready_index(s.drop_last(), epoch, round, payloads, qs)
    }
}

pub proof fn lemma_ready_index(
    s: Seq<PendingView>,
    epoch: u64,
    round: u64,
    payloads: Seq<PayloadEntry>,
    qs: bool,
)
    ensures
        -1 <= ready_index(s, epoch, round, payloads, qs) < s.len(),
    decreases s.len(),
{
    if s.len() > 0 {
        lemma_ready_index(s.drop_last(), epoch, round, payloads, qs);
    }
}

pub open spec fn pending_insert(s: Seq<PendingView>, e: PendingView, cap: nat) -> Seq<PendingView> {
    let k = pending_index(s, e.block.proof.epoch, e.block.proof.round);
    if k >= 0 {
        s.update(k, e)
    } else if s.len() < cap {
        s.push(e)
    } else {
        s
    }
}

pub open spec fn pending_kept(li: BlockInfo) -> spec_fn(PendingView) -> bool {
    |e: PendingView| !info_le(e.block.proof, li)
}

pub open spec fn pending_purge(s: Seq<PendingView>, li: BlockInfo) -> Seq<PendingView> {
    s.filter(pending_kept(li))
}

/// Ordered blocks that wait for their payloads, bounded in number.
pub struct PendingBlockStore {
    entries: Vec<PendingEntry>,
    max_entries: u64,
}

impl View for PendingBlockStore {
    type V = Seq<PendingView>;

    closed spec fn view(&self) -> Seq<PendingView> {
        self.entries@.map_values(|e: PendingEntry| e@)
    }
}

pub fn holds_block(b: &OrderedBlock, epoch: u64, round: u64) -> (r: bool)
    ensures
        r == holds_block_at(b@, epoch, round),
{
    let mut i: usize = 0;
    while i < b.blocks.len()
        invariant
            i <= b.blocks@.len(),
            forall|j: int|
                0 <= j < i ==> !(#[trigger] b.blocks@[j].info.epoch == epoch && b.blocks@[j].info.round
                    == round),
        decreases b.blocks@.len() - i,
    {
        if b.blocks[i].info.epoch == epoch && b.blocks[i].info.round == round {
            assert(b@.blocks[i as int].info.epoch == epoch);
            return true;
        }
        i = i + 1;
    }
    false
}

impl PendingBlockStore {
    pub closed spec fn capacity(&self) -> nat {
        self.max_entries as nat
    }

    pub fn new(max_entries: u64) -> (r: Self)
        ensures
            r@ == Seq::<PendingView>::empty(),
            r.capacity() == max_entries,
    {
        PendingBlockStore { entries: Vec::new(), max_entries }
    }

    pub fn len(&self) -> (r: usize)
        ensures
            r == self@.len(),
    {
        self.entries.len()
    }

    fn find(&self, epoch: u64, round: u64) -> (r: Option<usize>)
        ensures
            r.is_none() <==> pending_index(self@, epoch, round) == -1,
            r.is_some() ==> r.unwrap() as int == pending_index(self@, epoch, round),
    {
        let mut i: usize = self.entries.len();
        assert(self@.take(i as int) =~= self@);
        while i > 0
            invariant
                i <= self@.len(),
                self@.len() == self.entries@.len(),
                pending_index(self@, epoch, round) == pending_index(self@.take(i as int), epoch, round),
            decreases i,
        {
            let p = self.entries[i - 1].block.proof;
            assert(self@.take(i as int).drop_last() =~= self@.take(i - 1));
            assert(self@[i - 1] == self.entries@[i - 1]@);
            if p.epoch == epoch && p.round == round {
                return Some(i - 1);
            }
            i = i - 1;
        }
        None
    }

    /// Buffers a block that waits for payloads; one already buffered at the
    /// same point is replaced, and a full store drops the new one.
    pub fn insert_pending_block(&mut self, block: OrderedBlock, proof_verified: bool)
        ensures
            final(self)@ == pending_insert(
                old(self)@,
                PendingView { block: block@, proof_verified },
                old(self).capacity(),
            ),
            final(self).capacity() == old(self).capacity(),
    {
        let ghost s = self@;
        let ghost ev = PendingView { block: block@, proof_verified };
        let e = PendingEntry { block, proof_verified };
        proof { lemma_pending_index(s, e.block.proof.epoch, e.block.proof.round); }
        match self.find(e.block.proof.epoch, e.block.proof.round) {
            Some(k) => {
                self.entries.set(k, e);
                assert(self@ =~= s.update(k as int, ev));
            },
            None => {
                if (self.entries.len() as u64) < self.max_entries {
                    self.entries.push(e);
                    assert(self@ =~= s.push(ev));
                }
            },
        }
    }

    /// Where the last block that holds (epoch, round) and has all its
    /// payloads stands, if there is one.
    pub fn find_ready(&self, epoch: u64, round: u64, payloads: &BlockPayloadStore, qs: bool) -> (r:
        Option<usize>)
        ensures
            r.is_none() <==> ready_index(self@, epoch, round, payloads@, qs) == -1,
            r.is_some() ==> r.unwrap() as int == ready_index(self@, epoch, round, payloads@, qs),
    {
        let mut i: usize = self.entries.len();
        assert(self@.take(i as int) =~= self@);
        while i > 0
            invariant
                i <= self@.len(),
                self@.len() == self.entries@.len(),
                ready_index(self@, epoch, round, payloads@, qs) == ready_index(
                    self@.take(i as int),
                    epoch,
                    round,
                    payloads@,
                    qs,
                ),
            decreases i,
        {
            assert(self@.take(i as int).drop_last() =~= self@.take(i - 1));
            assert(self@[i - 1] == self.entries@[i - 1]@);
            let b = &self.entries[i - 1].block;
            if holds_block(b, epoch, round) {
                let ready = if qs {
                    payloads.all_payloads_exist(&b.blocks)
                } else {
                    true
                };
                if ready {
                    return Some(i - 1);
                }
            }
            i = i - 1;
        }
        None
    }

    pub fn block_at(&self, k: usize) -> (r: &OrderedBlock)
        requires
            k < self@.len(),
        ensures
            r@ == self@[k as int].block,
    {
        &self.entries[k].block
    }

    /// Removes the block whose proof is at the point of `li`, if there is one.
    pub fn remove_point(&mut self, li: &BlockInfo)
        ensures
            final(self)@ == pending_remove_point(old(self)@, *li),
            final(self).capacity() == old(self).capacity(),
    {
        proof { lemma_pending_index(self@, li.epoch, li.round); }
        match self.find(li.epoch, li.round) {
            Some(k) => {
                self.remove_at(k);
            },
            None => {},
        }
    }

    /// Replaces every buffered block's proof check by whether its proof is
    /// among `valid`.
    pub fn recheck_proofs(&mut self, valid: &Vec<BlockInfo>)
        ensures
            final(self)@ == pending_recheck(old(self)@, valid@),
            final(self).capacity() == old(self).capacity(),
    {
        let ghost s = self@;
        let n = self.entries.len();
        let mut i: usize = 0;
        assert(forall|j: int| 0 <= j < n ==> #[trigger] self.entries@[j]@ == s[j]);
        while i < n
            invariant
                n == s.len(),
                self.entries@.len() == n,
                self.max_entries == old(self).max_entries,
                i <= n,
                forall|j: int| 0 <= j < i ==> #[trigger] self.entries@[j]@ == rechecked(valid@)(s[j]),
                forall|j: int| i <= j < n ==> #[trigger] self.entries@[j]@ == s[j],
            decreases n - i,
        {
            let ok = contains_info(valid, self.entries[i].block.proof);
            let ghost before = self.entries@;
            self.entries[i].proof_verified = ok;
            assert(forall|j: int| 0 <= j < n && j != i ==> self.entries@[j] == before[j]);
            assert(self.entries@[i as int].block == before[i as int].block);
            assert(self.entries@[i as int].proof_verified == ok);
            assert(before[i as int]@ == s[i as int]);
            assert(self.entries@[i as int]@ == PendingView { block: s[i as int].block, proof_verified: valid@.contains(s[i as int].block.proof) });
            assert(self.entries@[i as int]@ == rechecked(valid@)(s[i as int]));
            i = i + 1;
        }
        assert(self@ =~= pending_recheck(s, valid@));
    }

    pub fn remove_at(&mut self, k: usize) -> (r: PendingEntry)
        requires
            k < old(self)@.len(),
        ensures
            r@ == old(self)@[k as int],
            final(self)@ == old(self)@.remove(k as int),
            final(self).capacity() == old(self).capacity(),
    {
        let ghost s = self@;
        let r = self.entries.remove(k);
        assert(self@ =~= s.remove(k as int));
        r
    }

    /// Removes every block whose proof is at or below `li`.
    pub fn remove_blocks_for_commit(&mut self, li: &BlockInfo)
        ensures
            final(self)@ == pending_purge(old(self)@, *li),
            final(self).capacity() == old(self).capacity(),
    {
        let ghost s = self@;
        let mut kept: Vec<PendingEntry> = Vec::new();
        let mut i: usize = 0;
        while i < self.entries.len()
            invariant
                self@ == s,
                s.len() == self.entries@.len(),
                i <= s.len(),
                kept@.map_values(|e: PendingEntry| e@) == s.take(i as int).filter(pending_kept(*li)),
            decreases s.len() - i,
        {
            let b = &self.entries[i].block;
            assert(s[i as int] == self.entries@[i as int]@);
            assert(s.take(i + 1).drop_last() =~= s.take(i as int));
            assert(s.take(i + 1).last() == s[i as int]);
            proof { reveal(Seq::filter); }
            let low = b.proof.epoch < li.epoch || (b.proof.epoch == li.epoch && b.proof.round
                <= li.round);
            if !low {
                let ghost kv = kept@;
                let e = PendingEntry { block: b.duplicate(), proof_verified: self.entries[i].proof_verified };
                kept.push(e);
                assert(kept@.map_values(|e: PendingEntry| e@) =~= kv.map_values(|e: PendingEntry| e@).push(s[i as int]));
            }
            i = i + 1;
        }
        assert(s.take(s.len() as int) =~= s);
        self.entries = kept;
    }

    pub fn clear_missing_blocks(&mut self)
        ensures
            final(self)@ == Seq::<PendingView>::empty(),
            final(self).capacity() == old(self).capacity(),
    {
        self.entries = Vec::new();
        assert(self@ =~= Seq::<PendingView>::empty());
    }
}

} // verus!
