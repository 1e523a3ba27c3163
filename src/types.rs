use vstd::prelude::*;

verus! {

/// Where a block stands in the chain: its epoch, its round and its identifier.
#[derive(Clone, Copy, Debug, PartialEq, Eq, Structural)]
pub struct BlockInfo {
    pub epoch: u64,
    pub round: u64,
    pub id: u64,
}

/// `a` comes strictly before `b` in (epoch, round) order.
pub open spec fn info_lt(a: BlockInfo, b: BlockInfo) -> bool {
    a.epoch < b.epoch || (a.epoch == b.epoch && a.round < b.round)
}

/// `a` is at or below `b` in (epoch, round) order.
pub open spec fn info_le(a: BlockInfo, b: BlockInfo) -> bool {
    !info_lt(b, a)
}

/// `a` and `b` stand at the same (epoch, round).
pub open spec fn same_point(a: BlockInfo, b: BlockInfo) -> bool {
    a.epoch == b.epoch && a.round == b.round
}

pub fn is_before(a: &BlockInfo, b: &BlockInfo) -> (r: bool)
    ensures
        r == info_lt(*a, *b),
{
    a.epoch < b.epoch || (a.epoch == b.epoch && a.round < b.round)
}

/// One block of an ordered sequence: its position, its parent's identifier
/// and the digest of the transaction payload it commits to.
#[derive(Clone, Copy, Debug, PartialEq, Eq, Structural)]
pub struct BlockRecord {
    pub info: BlockInfo,
    pub parent_id: u64,
    pub payload_digest: u64,
}

/// A run of blocks together with the ordered proof over the last of them.
#[derive(Debug)]
pub struct OrderedBlock {
    pub blocks: Vec<BlockRecord>,
    pub proof: BlockInfo,
}

pub struct OrderedBlockView {
    pub blocks: Seq<BlockRecord>,
    pub proof: BlockInfo,
}

impl View for OrderedBlock {
    type V = OrderedBlockView;

    open spec fn view(&self) -> OrderedBlockView {
        OrderedBlockView { blocks: self.blocks@, proof: self.proof }
    }
}

impl OrderedBlock {
    pub fn duplicate(&self) -> (r: OrderedBlock)
        ensures
            r@ == self@,
    {
        OrderedBlock { blocks: self.blocks.clone(), proof: self.proof }
    }

    /// The information of the block that the ordered proof covers.
    pub fn proof_block_info(&self) -> (r: BlockInfo)
        ensures
            r == self.proof,
    {
        self.proof
    }
}

/// The blocks are non-empty, each links to the one before it, and the
/// proof covers the last of them.
pub open spec fn blocks_well_formed(b: OrderedBlockView) -> bool {
    &&& b.blocks.len() > 0
    &&& forall|i: int|
        1 <= i < b.blocks.len() ==> #[trigger] b.blocks[i].parent_id == b.blocks[i - 1].info.id
    &&& b.blocks.last().info == b.proof
}

/// Checks the internal shape of an ordered block before anything else reads it.
pub fn verify_ordered_blocks(b: &OrderedBlock) -> (r: bool)
    ensures
        r == blocks_well_formed(b@),
{
    let n = b.blocks.len();
    if n == 0 {
        return false;
    }
    let mut i: usize = 1;
    while i < n
        invariant
            1 <= i <= n,
            n == b.blocks@.len(),
            forall|k: int| 1 <= k < i ==> #[trigger] b.blocks@[k].parent_id == b.blocks@[k - 1].info.id,
        decreases n - i,
    {
        if b.blocks[i].parent_id != b.blocks[i - 1].info.id {
            return false;
        }
        i = i + 1;
    }
    b.blocks[n - 1].info == b.proof
}

/// A quorum-certified claim that the block at `proof` has committed.
#[derive(Clone, Copy, Debug, PartialEq, Eq, Structural)]
pub struct CommitDecision {
    pub proof: BlockInfo,
}

/// The transaction payload of one block, named by that block and carrying
/// the digest of its contents.
#[derive(Clone, Copy, Debug, PartialEq, Eq, Structural)]
pub struct BlockPayload {
    pub block: BlockInfo,
    pub digest: u64,
}

} // verus!
