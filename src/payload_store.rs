use vstd::prelude::*;

use crate::types::{info_le, BlockInfo, BlockPayload, BlockRecord};

verus! {

/// A stored payload and whether its signatures have been checked against
/// the validator set of its epoch.
#[derive(Clone, Copy, Debug, PartialEq, Eq, Structural)]
pub struct PayloadEntry {
    pub payload: BlockPayload,
    pub verified: bool,
}

/// The position of the last entry for (epoch, round), or -1 when there is none.
pub open spec fn payload_index(s: Seq<PayloadEntry>, epoch: u64, round: u64) -> int
    decreases s.len(),
{
    if s.len() == 0 {
        -1
    } else if s.last().payload.block.epoch == epoch && s.last().payload.block.round == round {
        s.len() - 1
    } else {
        payload_index(s.drop_last(), epoch, round)
    }
}

pub proof fn lemma_payload_index(s: Seq<PayloadEntry>, epoch: u64, round: u64)
    ensures
        -1 <= payload_index(s, epoch, round) < s.len(),
        payload_index(s, epoch, round) >= 0 ==> ({
            let e = s[payload_index(s, epoch, round)];
            e.payload.block.epoch == epoch && e.payload.block.round == round
        }),
        payload_index(s, epoch, round) == -1 ==> forall|i: int|
            0 <= i < s.len() ==> !(#[trigger] s[i].payload.block.epoch == epoch
                && s[i].payload.block.round == round),
    decreases s.len(),
{
    if s.len() > 0 {
        lemma_payload_index(s.drop_last(), epoch, round);
        if payload_index(s, epoch, round) == -1 {
            assert forall|i: int| 0 <= i < s.len() implies !(#[trigger] s[i].payload.block.epoch
                == epoch && s[i].payload.block.round == round) by {
                if i < s.len() - 1 {
                    assert(s[i] == s.drop_last()[i]);
                }
            }
        }
    }
}

/// The payload for (epoch, round) is present and its signatures are verified.
pub open spec fn has_verified(s: Seq<PayloadEntry>, epoch: u64, round: u64) -> bool {
    payload_index(s, epoch, round) >= 0 && s[payload_index(s, epoch, round)].verified
}

/// Every block of `blocks` has a verified payload in `s`.
pub open spec fn all_verified(s: Seq<PayloadEntry>, blocks: Seq<BlockRecord>) -> bool {
    forall|i: int|
        0 <= i < blocks.len() ==> #[trigger] has_verified(
            s,
            blocks[i].info.epoch,
            blocks[i].info.round,
        )
}

/// Every block of `blocks` that has a payload in `s` agrees with it on the digest.
pub open spec fn digests_agree(s: Seq<PayloadEntry>, blocks: Seq<BlockRecord>) -> bool {
    forall|i: int|
        0 <= i < blocks.len() ==> #[trigger] payload_digest_matches(s, blocks[i])
}

pub open spec fn payload_digest_matches(s: Seq<PayloadEntry>, b: BlockRecord) -> bool {
    let k = payload_index(s, b.info.epoch, b.info.round);
    k >= 0 && s[k].payload.digest == b.payload_digest
}

/// Inserting replaces the entry at the same (epoch, round), or adds one while
/// there is room; a full store drops the new entry.
pub open spec fn payloads_insert(s: Seq<PayloadEntry>, e: PayloadEntry, cap: nat) -> Seq<PayloadEntry> {
    let k = payload_index(s, e.payload.block.epoch, e.payload.block.round);
    if k >= 0 {
        s.update(k, e)
    } else if s.len() < cap {
        s.push(e)
    } else {
        s
    }
}

pub open spec fn payload_kept(li: BlockInfo) -> spec_fn(PayloadEntry) -> bool {
    |e: PayloadEntry| !info_le(e.payload.block, li)
}

/// Everything at or below `li` removed.
pub open spec fn payloads_purge(s: Seq<PayloadEntry>, li: BlockInfo) -> Seq<PayloadEntry> {
    s.filter(payload_kept(li))
}

/// Marks the payload at (epoch, round) verified, if there is one.
pub open spec fn payloads_mark(s: Seq<PayloadEntry>, epoch: u64, round: u64) -> Seq<PayloadEntry> {
    let k = payload_index(s, epoch, round);
    if k >= 0 {
        s.update(k, PayloadEntry { payload: s[k].payload, verified: true })
    } else {
        s
    }
}

pub open spec fn awaiting(epoch: u64) -> spec_fn(PayloadEntry) -> bool {
    |e: PayloadEntry| e.payload.block.epoch == epoch && !e.verified
}

/// The payloads of `epoch` whose signatures are not yet verified, in store order.
pub open spec fn awaiting_payloads(s: Seq<PayloadEntry>, epoch: u64) -> Seq<BlockPayload> {
    s.filter(awaiting(epoch)).map_values(|e: PayloadEntry| e.payload)
}

/// Payloads of blocks, keyed by (epoch, round), bounded in number.
pub struct BlockPayloadStore {
    entries: Vec<PayloadEntry>,
    max_entries: u64,
}

impl View for BlockPayloadStore {
    type V = Seq<PayloadEntry>;

    closed spec fn view(&self) -> Seq<PayloadEntry> {
        self.entries@
    }
}

impl BlockPayloadStore {
    pub closed spec fn capacity(&self) -> nat {
        self.max_entries as nat
    }

    pub fn new(max_entries: u64) -> (r: Self)
        ensures
            r@ == Seq::<PayloadEntry>::empty(),
            r.capacity() == max_entries,
    {
        BlockPayloadStore { entries: Vec::new(), max_entries }
    }

    pub fn len(&self) -> (r: usize)
        ensures
            r == self@.len(),
    {
        self.entries.len()
    }

    pub fn entry(&self, i: usize) -> (r: PayloadEntry)
        requires
            i < self@.len(),
        ensures
            r == self@[i as int],
    {
        self.entries[i]
    }

    /// Where the entry for (epoch, round) stands, if there is one.
    pub fn find(&self, epoch: u64, round: u64) -> (r: Option<usize>)
        ensures
            r.is_none() <==> payload_index(self@, epoch, round) == -1,
            r.is_some() ==> r.unwrap() as int == payload_index(self@, epoch, round),
    {
        let mut i: usize = self.entries.len();
        assert(self@.take(i as int) =~= self@);
        while i > 0
            invariant
                i <= self@.len(),
                payload_index(self@, epoch, round) == payload_index(self@.take(i as int), epoch, round),
            decreases i,
        {
            let e = self.entries[i - 1];
            assert(self@.take(i as int).drop_last() =~= self@.take(i - 1));
            if e.payload.block.epoch == epoch && e.payload.block.round == round {
                return Some(i - 1);
            }
            i = i - 1;
        }
        None
    }

    pub fn insert_block_payload(&mut self, payload: BlockPayload, verified: bool)
        ensures
            final(self)@ == payloads_insert(
                old(self)@,
                PayloadEntry { payload, verified },
                old(self).capacity(),
            ),
            final(self).capacity() == old(self).capacity(),
    {
        let e = PayloadEntry { payload, verified };
        proof { lemma_payload_index(self@, payload.block.epoch, payload.block.round); }
        match self.find(payload.block.epoch, payload.block.round) {
            Some(k) => {
                self.entries.set(k, e);
            },
            None => {
                if (self.entries.len() as u64) < self.max_entries {
                    self.entries.push(e);
                }
            },
        }
    }

    pub fn mark_verified(&mut self, epoch: u64, round: u64)
        ensures
            final(self)@ == payloads_mark(old(self)@, epoch, round),
            final(self).capacity() == old(self).capacity(),
    {
        proof { lemma_payload_index(self@, epoch, round); }
        match self.find(epoch, round) {
            Some(k) => {
                let p = self.entries[k].payload;
                self.entries.set(k, PayloadEntry { payload: p, verified: true });
            },
            None => {},
        }
    }

    /// True iff every block has a verified payload here.
    pub fn all_payloads_exist(&self, blocks: &Vec<BlockRecord>) -> (r: bool)
        ensures
            r == all_verified(self@, blocks@),
    {
        let mut i: usize = 0;
        while i < blocks.len()
            invariant
                i <= blocks@.len(),
                forall|j: int| 0 <= j < i ==> #[trigger] has_verified(
                    self@,
                    blocks@[j].info.epoch,
                    blocks@[j].info.round,
                ),
            decreases blocks@.len() - i,
        {
            let b = blocks[i];
            proof { lemma_payload_index(self@, b.info.epoch, b.info.round); }
            match self.find(b.info.epoch, b.info.round) {
                Some(k) => {
                    if !self.entries[k].verified {
                        assert(!has_verified(self@, blocks@[i as int].info.epoch, blocks@[i as int].info.round));
                        return false;
                    }
                },
                None => {
                    assert(!has_verified(self@, blocks@[i as int].info.epoch, blocks@[i as int].info.round));
                    return false;
                },
            }
            i = i + 1;
        }
        true
    }

    /// True iff every block has a payload here whose digest is the block's.
    pub fn verify_payloads_against_ordered_block(&self, blocks: &Vec<BlockRecord>) -> (r: bool)
        ensures
            r == digests_agree(self@, blocks@),
    {
        let mut i: usize = 0;
        while i < blocks.len()
            invariant
                i <= blocks@.len(),
                forall|j: int| 0 <= j < i ==> #[trigger] payload_digest_matches(self@, blocks@[j]),
            decreases blocks@.len() - i,
        {
            let b = blocks[i];
            proof { lemma_payload_index(self@, b.info.epoch, b.info.round); }
            match self.find(b.info.epoch, b.info.round) {
                Some(k) => {
                    if self.entries[k].payload.digest != b.payload_digest {
                        assert(!payload_digest_matches(self@, blocks@[i as int]));
                        return false;
                    }
                },
                None => {
                    assert(!payload_digest_matches(self@, blocks@[i as int]));
                    return false;
                },
            }
            i = i + 1;
        }
        true
    }

    /// Removes every payload at or below `li`.
    pub fn remove_blocks_for_commit(&mut self, li: &BlockInfo)
        ensures
            final(self)@ == payloads_purge(old(self)@, *li),
            final(self).capacity() == old(self).capacity(),
    {
        let ghost s = self@;
        let mut kept: Vec<PayloadEntry> = Vec::new();
        let mut i: usize = 0;
        while i < self.entries.len()
            invariant
                self@ == s,
                i <= s.len(),
                kept@ == s.take(i as int).filter(payload_kept(*li)),
            decreases s.len() - i,
        {
            let e = self.entries[i];
            assert(s.take(i + 1).drop_last() =~= s.take(i as int));
            let low = e.payload.block.epoch < li.epoch || (e.payload.block.epoch == li.epoch
                && e.payload.block.round <= li.round);
            assert(payload_kept(*li)(e) == !low);
            assert(s.take(i + 1).last() == e);
            proof { reveal(Seq::filter); }
            if !low {
                kept.push(e);
            }
            i = i + 1;
        }
        assert(s.take(s.len() as int) =~= s);
        self.entries = kept;
    }

    /// The payloads of `epoch` whose signatures still wait to be verified.
    pub fn payloads_awaiting_verification(&self, epoch: u64) -> (r: Vec<BlockPayload>)
        ensures
            r@ == awaiting_payloads(self@, epoch),
    {
        let ghost s = self@;
        let mut r: Vec<BlockPayload> = Vec::new();
        let mut i: usize = 0;
        assert(s.take(0).filter(awaiting(epoch)).map_values(|e: PayloadEntry| e.payload) =~= r@) by {
            reveal(Seq::filter);
        }
        while i < self.entries.len()
            invariant
                i <= s.len(),
                s == self@,
                r@ == s.take(i as int).filter(awaiting(epoch)).map_values(|e: PayloadEntry| e.payload),
            decreases s.len() - i,
        {
            let e = self.entries[i];
            assert(s.take(i + 1).drop_last() =~= s.take(i as int));
            assert(s.take(i + 1).last() == e);
            assert(awaiting(epoch)(e) == (e.payload.block.epoch == epoch && !e.verified));
            proof { reveal(Seq::filter); }
            if e.payload.block.epoch == epoch && !e.verified {
                let ghost before = r@;
                r.push(e.payload);
                assert(s.take(i + 1).filter(awaiting(epoch)) == s.take(i as int).filter(awaiting(epoch)).push(e));
                assert(r@ =~= s.take(i + 1).filter(awaiting(epoch)).map_values(|e: PayloadEntry| e.payload));
            } else {
                assert(s.take(i + 1).filter(awaiting(epoch)) == s.take(i as int).filter(awaiting(epoch)));
            }
            i = i + 1;
        }
        assert(s.take(s.len() as int) =~= s);
        r
    }

    pub fn clear_all_payloads(&mut self)
        ensures
            final(self)@ == Seq::<PayloadEntry>::empty(),
            final(self).capacity() == old(self).capacity(),
    {
        self.entries = Vec::new();
    }
}

} // verus!
