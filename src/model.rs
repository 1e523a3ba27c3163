use vstd::prelude::*;

use crate::ordered_blocks::{lemma_ordered_index, ordered_index, ordered_kept, ordered_purge, OrderedView};
use crate::payload_store::{
    digests_agree, lemma_payload_index, payload_kept, payloads_insert, payloads_mark,
    payloads_purge, PayloadEntry,
};
use crate::pending_blocks::{
    lemma_pending_index, lemma_ready_index, payloads_ready, pending_index, pending_insert,
    pending_kept, pending_purge, pending_recheck, pending_remove_point, ready_index, PendingView,
};
use crate::subscription::{subscription_check, SubscriptionManager};
use crate::types::{
    blocks_well_formed, info_le, info_lt, same_point, BlockInfo, BlockPayload, CommitDecision,
    OrderedBlockView,
};

verus! {

/// The observer as a mathematical value.
pub struct ObserverView {
    pub root: BlockInfo,
    pub epoch: Option<u64>,
    pub quorum_store_enabled: bool,
    pub payloads: Seq<PayloadEntry>,
    pub payload_cap: nat,
    pub pending: Seq<PendingView>,
    pub pending_cap: nat,
    pub ordered: Seq<OrderedView>,
    pub ordered_cap: nat,
    /// Some while state sync runs; the flag says whether it crosses into a new epoch.
    pub sync: Option<bool>,
    pub subscription: SubscriptionManager,
}

/// What the observer asks of the world around it, in order.
pub enum ActionView {
    Finalize(OrderedBlockView),
    ForwardCommit(CommitDecision),
    StartSync(CommitDecision, bool),
    ResetPipeline(BlockInfo),
    EndEpoch,
}

/// An inbound message, as a value.
pub enum MessageView {
    Ordered(OrderedBlockView),
    Commit(CommitDecision),
    Payload(BlockPayload),
}

/// The outcomes of the cryptographic checks made on a message: payload
/// digests, payload signatures, and the quorum proof of a block or decision.
#[derive(Clone, Copy, Debug, PartialEq, Eq, Structural)]
pub struct Verdicts {
    pub digests_valid: bool,
    pub signatures_valid: bool,
    pub proof_valid: bool,
}

pub type Step = (ObserverView, Seq<ActionView>);

pub open spec fn no_actions() -> Seq<ActionView> {
    Seq::empty()
}

/// Stored blocks are in strictly ascending (epoch, round) order.
pub open spec fn ascending(s: Seq<OrderedView>) -> bool {
    forall|i: int, j: int|
        0 <= i < j < s.len() ==> info_lt(#[trigger] s[i].block.proof, #[trigger] s[j].block.proof)
}

/// Each stored block links to the one stored before it.
pub open spec fn chain_linked(s: Seq<OrderedView>) -> bool {
    forall|i: int|
        0 < i < s.len() ==> #[trigger] s[i].block.blocks[0].parent_id == s[i - 1].block.proof.id
}

/// No two payloads share an (epoch, round).
pub open spec fn payload_keys_unique(s: Seq<PayloadEntry>) -> bool {
    forall|i: int, j: int|
        0 <= i < j < s.len() ==> !same_point(#[trigger] s[i].payload.block, #[trigger] s[j].payload.block)
}

/// No two buffered blocks share the (epoch, round) of their proof.
pub open spec fn pending_keys_unique(s: Seq<PendingView>) -> bool {
    forall|i: int, j: int|
        0 <= i < j < s.len() ==> !same_point(#[trigger] s[i].block.proof, #[trigger] s[j].block.proof)
}

/// No (epoch, round) is both buffered and stored.
pub open spec fn stores_disjoint(pending: Seq<PendingView>, ordered: Seq<OrderedView>) -> bool {
    forall|i: int, j: int|
        0 <= i < pending.len() && 0 <= j < ordered.len() ==> !same_point(
            #[trigger] pending[i].block.proof,
            #[trigger] ordered[j].block.proof,
        )
}

/// Stored blocks are well formed, sit strictly above the root in ascending
/// order and link one to the next; buffered blocks are well formed; keys
/// are unique in each store, and no point is both buffered and stored.
pub open spec fn view_wf(s: ObserverView) -> bool {
    &&& forall|i: int| 0 <= i < s.ordered.len() ==> info_lt(s.root, #[trigger] s.ordered[i].block.proof)
    &&& ascending(s.ordered)
    &&& chain_linked(s.ordered)
    &&& forall|i: int| 0 <= i < s.ordered.len() ==> blocks_well_formed(#[trigger] s.ordered[i].block)
    &&& forall|i: int| 0 <= i < s.pending.len() ==> blocks_well_formed(#[trigger] s.pending[i].block)
    &&& payload_keys_unique(s.payloads)
    &&& pending_keys_unique(s.pending)
    &&& stores_disjoint(s.pending, s.ordered)
}

/// The last block known: the newest ordered block, or else the root.
pub open spec fn last_block(s: ObserverView) -> BlockInfo {
    if s.ordered.len() > 0 {
        s.ordered.last().block.proof
    } else {
        s.root
    }
}

/// A well-formed, payload-complete block: checked against the epoch, its
/// proof and its payloads, then, while the ordered store has room, linked
/// after the last block (any buffered block at its point leaves the pending
/// store) and forwarded unless state sync runs.
pub open spec fn step_process_ordered(s: ObserverView, b: OrderedBlockView, proof_ok: bool) -> Step {
    let last = last_block(s);
    if !(s.epoch == Some(b.proof.epoch) && proof_ok) {
        (s, no_actions())
    } else if !digests_agree(s.payloads, b.blocks) {
        (s, no_actions())
    } else if b.blocks[0].parent_id == last.id && info_lt(last, b.proof) {
        if s.ordered.len() < s.ordered_cap {
            let s2 = ObserverView {
                ordered: s.ordered.push(OrderedView { block: b, decision: None }),
                pending: pending_remove_point(s.pending, b.proof),
                ..s
            };
            if s.sync.is_none() {
                (s2, seq![ActionView::Finalize(b)])
            } else {
                (s2, no_actions())
            }
        } else {
            (s, no_actions())
        }
    } else {
        (s, no_actions())
    }
}

/// An ordered block message: a malformed one, or one at or below the last
/// block (stale or redundant), is dropped; one with all payloads at hand is
/// processed; any other waits in the pending store.
pub open spec fn step_ordered_block(s: ObserverView, b: OrderedBlockView, proof_ok: bool) -> Step {
    if !blocks_well_formed(b) || !info_lt(last_block(s), b.proof) {
        (s, no_actions())
    } else if payloads_ready(s.payloads, s.quorum_store_enabled, b.blocks) {
        step_process_ordered(s, b, proof_ok)
    } else {
        (
            ObserverView {
                pending: pending_insert(
                    s.pending,
                    PendingView { block: b, proof_verified: proof_ok },
                    s.pending_cap,
                ),
                ..s
            },
            no_actions(),
        )
    }
}

/// A payload at (epoch, round) became verified: the pending block it completes,
/// if any, leaves the pending store and is processed.
pub open spec fn step_order_ready_pending(s: ObserverView, epoch: u64, round: u64) -> Step {
    let k = ready_index(s.pending, epoch, round, s.payloads, s.quorum_store_enabled);
    if k < 0 {
        (s, no_actions())
    } else {
        let p = s.pending[k];
        step_process_ordered(ObserverView { pending: s.pending.remove(k), ..s }, p.block, p.proof_verified)
    }
}

pub open spec fn step_block_payload(s: ObserverView, p: BlockPayload, digests_ok: bool, sigs_ok: bool) -> Step {
    if !digests_ok {
        (s, no_actions())
    } else if s.epoch == Some(p.block.epoch) {
        if !sigs_ok {
            (s, no_actions())
        } else {
            let s1 = ObserverView {
                payloads: payloads_insert(s.payloads, PayloadEntry { payload: p, verified: true }, s.payload_cap),
                ..s
            };
            step_order_ready_pending(s1, p.block.epoch, p.block.round)
        }
    } else {
        (
            ObserverView {
                payloads: payloads_insert(s.payloads, PayloadEntry { payload: p, verified: false }, s.payload_cap),
                ..s
            },
            no_actions(),
        )
    }
}

/// The decision can be attached to a stored block with all its payloads.
pub open spec fn can_attach(s: ObserverView, cd: CommitDecision) -> bool {
    let k = ordered_index(s.ordered, cd.proof.epoch, cd.proof.round);
    k >= 0 && payloads_ready(s.payloads, s.quorum_store_enabled, s.ordered[k].block.blocks)
}

pub open spec fn step_attach(s: ObserverView, cd: CommitDecision) -> Step {
    let k = ordered_index(s.ordered, cd.proof.epoch, cd.proof.round);
    let s2 = ObserverView {
        ordered: s.ordered.update(k, OrderedView { block: s.ordered[k].block, decision: Some(cd) }),
        ..s
    };
    if s.sync.is_none() {
        (s2, seq![ActionView::ForwardCommit(cd)])
    } else {
        (s2, no_actions())
    }
}

/// Root moved to the target, all three stores purged at or below it, and
/// state sync started.
pub open spec fn step_start_sync(s: ObserverView, cd: CommitDecision, epoch_changed: bool) -> Step {
    (
        ObserverView {
            root: cd.proof,
            payloads: payloads_purge(s.payloads, cd.proof),
            pending: pending_purge(s.pending, cd.proof),
            ordered: ordered_purge(s.ordered, cd.proof),
            sync: Some(epoch_changed),
            ..s
        },
        seq![ActionView::StartSync(cd, epoch_changed)],
    )
}

pub open spec fn step_commit_decision(s: ObserverView, cd: CommitDecision, proof_ok: bool) -> Step {
    let current = s.epoch == Some(cd.proof.epoch);
    let last = last_block(s);
    if current && !proof_ok {
        (s, no_actions())
    } else if current && can_attach(s, cd) {
        step_attach(s, cd)
    } else if info_lt(last, cd.proof) && s.sync != Some(true) {
        step_start_sync(s, cd, cd.proof.epoch > last.epoch)
    } else {
        (s, no_actions())
    }
}

pub open spec fn step_message(s: ObserverView, peer: u64, now_ms: u64, m: MessageView, v: Verdicts) -> Step {
    if s.subscription.active_peer != Some(peer) {
        (s, no_actions())
    } else {
        let s1 = ObserverView {
            subscription: SubscriptionManager { last_message_ms: now_ms, ..s.subscription },
            ..s
        };
        match m {
            MessageView::Ordered(b) => step_ordered_block(s1, b, v.proof_valid),
            MessageView::Commit(cd) => step_commit_decision(s1, cd, v.proof_valid),
            MessageView::Payload(p) => step_block_payload(s1, p, v.digests_valid, v.signatures_valid),
        }
    }
}

/// Every stored block in store order, each followed by its decision if it has one.
pub open spec fn replay(ordered: Seq<OrderedView>) -> Seq<ActionView>
    decreases ordered.len(),
{
    if ordered.len() == 0 {
        no_actions()
    } else {
        let e = ordered.last();
        let tail = if e.decision.is_some() {
            seq![ActionView::Finalize(e.block), ActionView::ForwardCommit(e.decision.unwrap())]
        } else {
            seq![ActionView::Finalize(e.block)]
        };
        replay(ordered.drop_last()) + tail
    }
}

pub open spec fn step_finish_sync(s: ObserverView) -> Step {
    (ObserverView { sync: None, ..s }, replay(s.ordered))
}

pub open spec fn step_sync_notification(s: ObserverView, epoch: u64, round: u64) -> Step {
    if !(s.root.epoch == epoch && s.root.round == round) {
        (s, no_actions())
    } else if epoch > s.epoch.unwrap() {
        (s, seq![ActionView::EndEpoch])
    } else {
        step_finish_sync(s)
    }
}

/// Payloads of `epoch` at the given rounds verified one by one, each
/// unblocking the pending block it completes.
pub open spec fn step_verify_rounds(s: ObserverView, epoch: u64, rounds: Seq<u64>) -> Step
    decreases rounds.len(),
{
    if rounds.len() == 0 {
        (s, no_actions())
    } else {
        let (s1, a1) = step_verify_rounds(s, epoch, rounds.drop_last());
        let s2 = ObserverView { payloads: payloads_mark(s1.payloads, epoch, rounds.last()), ..s1 };
        let (s3, a3) = step_order_ready_pending(s2, epoch, rounds.last());
        (s3, a1 + a3)
    }
}

/// Entering `epoch` after state sync: each buffered block's proof check is
/// redone under the new epoch (`valid` holds the proofs that pass), the
/// payloads at `rounds` are verified in turn, and state sync ends.
pub open spec fn step_epoch_change(
    s: ObserverView,
    epoch: u64,
    qs: bool,
    valid: Seq<BlockInfo>,
    rounds: Seq<u64>,
) -> Step {
    let s1 = ObserverView {
        epoch: Some(epoch),
        quorum_store_enabled: qs,
        pending: pending_recheck(s.pending, valid),
        ..s
    };
    let (s2, a2) = step_verify_rounds(s1, epoch, rounds);
    let (s3, a3) = step_finish_sync(s2);
    (s3, a2 + a3)
}

/// What a commit reported by execution does: committed payloads and blocks
/// leave the stores, and the root moves forward within its epoch only.
pub open spec fn step_commit_callback(s: ObserverView, li: BlockInfo) -> ObserverView {
    let s1 = ObserverView {
        payloads: payloads_purge(s.payloads, li),
        ordered: ordered_purge(s.ordered, li),
        ..s
    };
    if li.epoch == s.root.epoch && li.round > s.root.round {
        ObserverView { root: li, ..s1 }
    } else {
        s1
    }
}

pub open spec fn step_check_progress(s: ObserverView, now_ms: u64, candidate: Option<u64>) -> Step {
    if s.sync.is_some() {
        (s, no_actions())
    } else {
        let (m, created) = subscription_check(s.subscription, now_ms, candidate);
        if created {
            (
                ObserverView {
                    subscription: m,
                    payloads: Seq::empty(),
                    pending: Seq::empty(),
                    ordered: Seq::empty(),
                    ..s
                },
                seq![ActionView::ResetPipeline(s.root)],
            )
        } else {
            (ObserverView { subscription: m, ..s }, no_actions())
        }
    }
}

/// An element kept by a filter is one of the filtered sequence and meets the predicate.
pub proof fn lemma_filter_member<A>(s: Seq<A>, p: spec_fn(A) -> bool, i: int)
    requires
        0 <= i < s.filter(p).len(),
    ensures
        exists|j: int| 0 <= j < s.len() && s[j] == s.filter(p)[i],
        p(s.filter(p)[i]),
{
    let x = s.filter(p)[i];
    assert(s.filter(p).contains(x));
    s.lemma_filter_contains_rev(p, x);
    s.lemma_filter_pred(p, i);
}

/// Purging at or below `li` leaves buffered blocks well formed and stored
/// blocks strictly above `li`.
pub proof fn lemma_purge_keeps_shape(s: ObserverView, li: BlockInfo)
    requires
        view_wf(s),
    ensures
        ascending(ordered_purge(s.ordered, li)),
        forall|i: int|
            0 <= i < pending_purge(s.pending, li).len() ==> blocks_well_formed(
                #[trigger] pending_purge(s.pending, li)[i].block,
            ),
        forall|i: int|
            0 <= i < ordered_purge(s.ordered, li).len() ==> info_lt(
                li,
                #[trigger] ordered_purge(s.ordered, li)[i].block.proof,
            ),
        forall|i: int|
            0 <= i < ordered_purge(s.ordered, li).len() ==> info_lt(
                s.root,
                #[trigger] ordered_purge(s.ordered, li)[i].block.proof,
            ),
{
    lemma_filter_ascending(s.ordered, ordered_kept(li));
    assert forall|i: int| 0 <= i < pending_purge(s.pending, li).len() implies blocks_well_formed(
        #[trigger] pending_purge(s.pending, li)[i].block,
    ) by {
        lemma_filter_member(s.pending, pending_kept(li), i);
        let j = choose|j: int| 0 <= j < s.pending.len() && s.pending[j] == s.pending.filter(pending_kept(li))[i];
        assert(blocks_well_formed(s.pending[j].block));
    }
    assert forall|i: int| 0 <= i < ordered_purge(s.ordered, li).len() implies info_lt(
        li,
        #[trigger] ordered_purge(s.ordered, li)[i].block.proof,
    ) by {
        lemma_filter_member(s.ordered, ordered_kept(li), i);
    }
    assert forall|i: int| 0 <= i < ordered_purge(s.ordered, li).len() implies info_lt(
        s.root,
        #[trigger] ordered_purge(s.ordered, li)[i].block.proof,
    ) by {
        lemma_filter_member(s.ordered, ordered_kept(li), i);
        let j = choose|j: int| 0 <= j < s.ordered.len() && s.ordered[j] == s.ordered.filter(ordered_kept(li))[i];
        assert(info_lt(s.root, s.ordered[j].block.proof));
    }
}

/// Filtering keeps ascending order.
pub proof fn lemma_filter_ascending(s: Seq<OrderedView>, p: spec_fn(OrderedView) -> bool)
    requires
        ascending(s),
    ensures
        ascending(s.filter(p)),
    decreases s.len(),
{
    reveal(Seq::filter);
    if s.len() > 0 {
        let d = s.drop_last();
        assert(ascending(d)) by {
            assert forall|i: int, j: int| 0 <= i < j < d.len() implies info_lt(
                #[trigger] d[i].block.proof,
                #[trigger] d[j].block.proof,
            ) by {
                assert(d[i] == s[i] && d[j] == s[j]);
            }
        }
        lemma_filter_ascending(d, p);
        let f = d.filter(p);
        if p(s.last()) {
            let g = f.push(s.last());
            assert forall|i: int, j: int| 0 <= i < j < g.len() implies info_lt(
                #[trigger] g[i].block.proof,
                #[trigger] g[j].block.proof,
            ) by {
                if j == g.len() - 1 {
                    lemma_filter_member(d, p, i);
                    let k = choose|k: int| 0 <= k < d.len() && d[k] == f[i];
                    assert(s[k] == d[k]);
                    assert(info_lt(s[k].block.proof, s[s.len() - 1].block.proof));
                } else {
                    assert(g[i] == f[i] && g[j] == f[j]);
                }
            }
        }
    }
}


/// Purging at or below `li` drops a prefix of an ascending store.
pub proof fn lemma_purge_suffix(s: Seq<OrderedView>, li: BlockInfo) -> (m: int)
    requires
        ascending(s),
    ensures
        0 <= m <= s.len(),
        ordered_purge(s, li) == s.skip(m),
    decreases s.len(),
{
    reveal(Seq::filter);
    if s.len() == 0 {
        assert(s.skip(0) =~= s);
        0
    } else {
        let d = s.drop_last();
        assert forall|i: int, j: int| 0 <= i < j < d.len() implies info_lt(
            #[trigger] d[i].block.proof,
            #[trigger] d[j].block.proof,
        ) by {
            assert(d[i] == s[i] && d[j] == s[j]);
        }
        let m0 = lemma_purge_suffix(d, li);
        if ordered_kept(li)(s.last()) {
            assert(s.skip(m0) =~= d.skip(m0).push(s.last()));
            m0
        } else {
            // everything before the last is below it, hence at or below `li` too
            if m0 < d.len() {
                assert(d.skip(m0)[0] == d[m0]);
                lemma_filter_member(d, ordered_kept(li), 0);
                assert(d[m0] == s[m0]);
                assert(info_lt(s[m0].block.proof, s[s.len() - 1].block.proof));
                assert(false);
            }
            assert(s.skip(s.len() as int) =~= d.skip(m0));
            s.len() as int
        }
    }
}

/// Filtering keeps buffered keys unique.
pub proof fn lemma_filter_pending_unique(s: Seq<PendingView>, p: spec_fn(PendingView) -> bool)
    requires
        pending_keys_unique(s),
    ensures
        pending_keys_unique(s.filter(p)),
    decreases s.len(),
{
    reveal(Seq::filter);
    if s.len() > 0 {
        let d = s.drop_last();
        assert forall|i: int, j: int| 0 <= i < j < d.len() implies !same_point(
            #[trigger] d[i].block.proof,
            #[trigger] d[j].block.proof,
        ) by {
            assert(d[i] == s[i] && d[j] == s[j]);
        }
        lemma_filter_pending_unique(d, p);
        let f = d.filter(p);
        if p(s.last()) {
            let g = f.push(s.last());
            assert forall|i: int, j: int| 0 <= i < j < g.len() implies !same_point(
                #[trigger] g[i].block.proof,
                #[trigger] g[j].block.proof,
            ) by {
                if j == g.len() - 1 {
                    lemma_filter_member(d, p, i);
                    let k = choose|k: int| 0 <= k < d.len() && d[k] == f[i];
                    assert(s[k] == d[k]);
                    assert(!same_point(s[k].block.proof, s[s.len() - 1].block.proof));
                } else {
                    assert(g[i] == f[i] && g[j] == f[j]);
                }
            }
        }
    }
}

/// Filtering keeps payload keys unique.
pub proof fn lemma_filter_payload_unique(s: Seq<PayloadEntry>, p: spec_fn(PayloadEntry) -> bool)
    requires
        payload_keys_unique(s),
    ensures
        payload_keys_unique(s.filter(p)),
    decreases s.len(),
{
    reveal(Seq::filter);
    if s.len() > 0 {
        let d = s.drop_last();
        assert forall|i: int, j: int| 0 <= i < j < d.len() implies !same_point(
            #[trigger] d[i].payload.block,
            #[trigger] d[j].payload.block,
        ) by {
            assert(d[i] == s[i] && d[j] == s[j]);
        }
        lemma_filter_payload_unique(d, p);
        let f = d.filter(p);
        if p(s.last()) {
            let g = f.push(s.last());
            assert forall|i: int, j: int| 0 <= i < j < g.len() implies !same_point(
                #[trigger] g[i].payload.block,
                #[trigger] g[j].payload.block,
            ) by {
                if j == g.len() - 1 {
                    lemma_filter_member(d, p, i);
                    let k = choose|k: int| 0 <= k < d.len() && d[k] == f[i];
                    assert(s[k] == d[k]);
                    assert(!same_point(s[k].payload.block, s[s.len() - 1].payload.block));
                } else {
                    assert(g[i] == f[i] && g[j] == f[j]);
                }
            }
        }
    }
}

/// Inserting or marking a payload keeps payload keys unique.
pub proof fn lemma_payload_updates_unique(s: Seq<PayloadEntry>, e: PayloadEntry, cap: nat, epoch: u64, round: u64)
    requires
        payload_keys_unique(s),
    ensures
        payload_keys_unique(payloads_insert(s, e, cap)),
        payload_keys_unique(payloads_mark(s, epoch, round)),
{
    lemma_payload_index(s, e.payload.block.epoch, e.payload.block.round);
    lemma_payload_index(s, epoch, round);
    let t = payloads_insert(s, e, cap);
    assert forall|i: int, j: int| 0 <= i < j < t.len() implies !same_point(
        #[trigger] t[i].payload.block,
        #[trigger] t[j].payload.block,
    ) by {
        if i < s.len() && j < s.len() {
            assert(same_point(t[i].payload.block, s[i].payload.block));
            assert(same_point(t[j].payload.block, s[j].payload.block));
        }
    }
    let u = payloads_mark(s, epoch, round);
    assert forall|i: int, j: int| 0 <= i < j < u.len() implies !same_point(
        #[trigger] u[i].payload.block,
        #[trigger] u[j].payload.block,
    ) by {
        assert(u[i].payload == s[i].payload && u[j].payload == s[j].payload);
    }
}

/// Removing a buffered block keeps the invariant.
pub proof fn lemma_wf_remove_pending(s: ObserverView, k: int)
    requires
        view_wf(s),
        0 <= k < s.pending.len(),
    ensures
        view_wf(ObserverView { pending: s.pending.remove(k), ..s }),
{
    let p = s.pending.remove(k);
    assert forall|i: int| 0 <= i < p.len() implies #[trigger] p[i] == s.pending[if i < k { i } else { i + 1 }] by {}
    assert forall|i: int, j: int| 0 <= i < j < p.len() implies !same_point(
        #[trigger] p[i].block.proof,
        #[trigger] p[j].block.proof,
    ) by {
        assert(p[i] == s.pending[if i < k { i } else { i + 1 }]);
        assert(p[j] == s.pending[if j < k { j } else { j + 1 }]);
    }
    assert forall|i: int, j: int| 0 <= i < p.len() && 0 <= j < s.ordered.len() implies !same_point(
        #[trigger] p[i].block.proof,
        #[trigger] s.ordered[j].block.proof,
    ) by {
        assert(p[i] == s.pending[if i < k { i } else { i + 1 }]);
    }
    assert forall|i: int| 0 <= i < p.len() implies blocks_well_formed(#[trigger] p[i].block) by {
        assert(p[i] == s.pending[if i < k { i } else { i + 1 }]);
    }
}

/// Processing a payload-complete block keeps the invariant.
pub proof fn lemma_wf_process_ordered(s: ObserverView, b: OrderedBlockView, proof_ok: bool)
    requires
        view_wf(s),
        blocks_well_formed(b),
    ensures
        view_wf(step_process_ordered(s, b, proof_ok).0),
{
    let last = last_block(s);
    let n = s.ordered.len();
    if s.epoch == Some(b.proof.epoch) && proof_ok && digests_agree(s.payloads, b.blocks)
        && b.blocks[0].parent_id == last.id && info_lt(last, b.proof) && n < s.ordered_cap {
        lemma_pending_index(s.pending, b.proof.epoch, b.proof.round);
        let k = pending_index(s.pending, b.proof.epoch, b.proof.round);
        let s1 = if k >= 0 {
            lemma_wf_remove_pending(s, k);
            ObserverView { pending: s.pending.remove(k), ..s }
        } else {
            s
        };
        assert(s1.pending == pending_remove_point(s.pending, b.proof));
        // no buffered block is left at the new block's point
        assert forall|i: int| 0 <= i < s1.pending.len() implies !same_point(
            #[trigger] s1.pending[i].block.proof,
            b.proof,
        ) by {
            if k >= 0 {
                let j = if i < k { i } else { i + 1 };
                assert(s1.pending[i] == s.pending[j]);
                if j < k {
                    assert(!same_point(s.pending[j].block.proof, s.pending[k].block.proof));
                } else {
                    assert(!same_point(s.pending[k].block.proof, s.pending[j].block.proof));
                }
            }
        }
        let o = s.ordered.push(OrderedView { block: b, decision: None });
        if n > 0 {
            assert(info_lt(s.root, s.ordered[n - 1].block.proof));
        }
        assert forall|i: int| 0 <= i < n implies info_le(#[trigger] s.ordered[i].block.proof, last) by {
            if i < n - 1 {
                assert(info_lt(s.ordered[i].block.proof, s.ordered[n - 1].block.proof));
            }
        }
        assert forall|i: int, j: int| 0 <= i < j < o.len() implies info_lt(
            #[trigger] o[i].block.proof,
            #[trigger] o[j].block.proof,
        ) by {
            if j == n {
                assert(info_le(s.ordered[i].block.proof, last));
            } else {
                assert(o[i] == s.ordered[i] && o[j] == s.ordered[j]);
            }
        }
        assert forall|i: int| 0 < i < o.len() implies #[trigger] o[i].block.blocks[0].parent_id
            == o[i - 1].block.proof.id by {
            if i < n {
                assert(o[i] == s.ordered[i] && o[i - 1] == s.ordered[i - 1]);
            }
        }
        assert forall|i: int, j: int| 0 <= i < s1.pending.len() && 0 <= j < o.len() implies !same_point(
            #[trigger] s1.pending[i].block.proof,
            #[trigger] o[j].block.proof,
        ) by {
            if j < n {
                assert(o[j] == s.ordered[j]);
            }
        }
        assert(view_wf(ObserverView { ordered: o, ..s1 }));
    }
}

/// Buffering or processing an ordered block keeps the invariant.
pub proof fn lemma_wf_ordered_block(s: ObserverView, b: OrderedBlockView, proof_ok: bool)
    requires
        view_wf(s),
    ensures
        view_wf(step_ordered_block(s, b, proof_ok).0),
{
    if blocks_well_formed(b) && info_lt(last_block(s), b.proof) {
        if payloads_ready(s.payloads, s.quorum_store_enabled, b.blocks) {
            lemma_wf_process_ordered(s, b, proof_ok);
        } else {
            let n = s.ordered.len();
            lemma_pending_index(s.pending, b.proof.epoch, b.proof.round);
            let ev = PendingView { block: b, proof_verified: proof_ok };
            let p = pending_insert(s.pending, ev, s.pending_cap);
            assert forall|j: int| 0 <= j < n implies info_lt(#[trigger] s.ordered[j].block.proof, b.proof) by {
                if j < n - 1 {
                    assert(info_lt(s.ordered[j].block.proof, s.ordered[n - 1].block.proof));
                }
            }
            assert forall|i: int| 0 <= i < p.len() implies blocks_well_formed(#[trigger] p[i].block)
                && (p[i] == ev || (i < s.pending.len() && p[i] == s.pending[i])) by {}
            assert forall|i: int, j: int| 0 <= i < j < p.len() implies !same_point(
                #[trigger] p[i].block.proof,
                #[trigger] p[j].block.proof,
            ) by {
                assert(p[i] == ev || (i < s.pending.len() && p[i] == s.pending[i]));
                assert(p[j] == ev || (j < s.pending.len() && p[j] == s.pending[j]));
            }
            assert forall|i: int, j: int| 0 <= i < p.len() && 0 <= j < n implies !same_point(
                #[trigger] p[i].block.proof,
                #[trigger] s.ordered[j].block.proof,
            ) by {
                assert(p[i] == ev || (i < s.pending.len() && p[i] == s.pending[i]));
            }
        }
    }
}

/// Promoting the pending block a payload completes keeps the invariant.
pub proof fn lemma_wf_order_ready(s: ObserverView, epoch: u64, round: u64)
    requires
        view_wf(s),
    ensures
        view_wf(step_order_ready_pending(s, epoch, round).0),
{
    lemma_ready_index(s.pending, epoch, round, s.payloads, s.quorum_store_enabled);
    let k = ready_index(s.pending, epoch, round, s.payloads, s.quorum_store_enabled);
    if k >= 0 {
        lemma_wf_remove_pending(s, k);
        let p = s.pending[k];
        lemma_wf_process_ordered(ObserverView { pending: s.pending.remove(k), ..s }, p.block, p.proof_verified);
    }
}

/// Handling a payload keeps the invariant.
pub proof fn lemma_wf_block_payload(s: ObserverView, p: BlockPayload, digests_ok: bool, sigs_ok: bool)
    requires
        view_wf(s),
    ensures
        view_wf(step_block_payload(s, p, digests_ok, sigs_ok).0),
{
    lemma_payload_updates_unique(s.payloads, PayloadEntry { payload: p, verified: true }, s.payload_cap, 0, 0);
    lemma_payload_updates_unique(s.payloads, PayloadEntry { payload: p, verified: false }, s.payload_cap, 0, 0);
    if digests_ok && s.epoch == Some(p.block.epoch) && sigs_ok {
        let s1 = ObserverView {
            payloads: payloads_insert(s.payloads, PayloadEntry { payload: p, verified: true }, s.payload_cap),
            ..s
        };
        lemma_wf_order_ready(s1, p.block.epoch, p.block.round);
    }
}

/// Purging the stores at or below `li` and moving the root to any point at
/// or below `li` keeps the invariant.
pub proof fn lemma_wf_purge(s: ObserverView, li: BlockInfo, root: BlockInfo, purge_pending: bool)
    requires
        view_wf(s),
        info_le(root, li) || root == s.root,
    ensures
        view_wf(ObserverView {
            root,
            payloads: payloads_purge(s.payloads, li),
            pending: if purge_pending { pending_purge(s.pending, li) } else { s.pending },
            ordered: ordered_purge(s.ordered, li),
            ..s
        }),
{
    lemma_purge_keeps_shape(s, li);
    let m = lemma_purge_suffix(s.ordered, li);
    let o = ordered_purge(s.ordered, li);
    assert forall|i: int| 0 <= i < o.len() implies #[trigger] o[i] == s.ordered[m + i] by {}
    assert forall|i: int| 0 < i < o.len() implies #[trigger] o[i].block.blocks[0].parent_id
        == o[i - 1].block.proof.id by {
        assert(o[i] == s.ordered[m + i] && o[i - 1] == s.ordered[m + i - 1]);
    }
    assert forall|i: int| 0 <= i < o.len() implies blocks_well_formed(#[trigger] o[i].block) by {
        assert(o[i] == s.ordered[m + i]);
    }
    assert forall|i: int| 0 <= i < o.len() implies info_lt(root, #[trigger] o[i].block.proof) by {
        assert(o[i] == s.ordered[m + i]);
    }
    lemma_filter_payload_unique(s.payloads, payload_kept(li));
    lemma_filter_pending_unique(s.pending, pending_kept(li));
    let p = if purge_pending { pending_purge(s.pending, li) } else { s.pending };
    assert forall|i: int, j: int| 0 <= i < p.len() && 0 <= j < o.len() implies !same_point(
        #[trigger] p[i].block.proof,
        #[trigger] o[j].block.proof,
    ) by {
        assert(o[j] == s.ordered[m + j]);
        if purge_pending {
            lemma_filter_member(s.pending, pending_kept(li), i);
            let k = choose|k: int| 0 <= k < s.pending.len() && s.pending[k] == s.pending.filter(pending_kept(li))[i];
            assert(!same_point(s.pending[k].block.proof, s.ordered[m + j].block.proof));
        }
    }
    assert forall|i: int| 0 <= i < p.len() implies blocks_well_formed(#[trigger] p[i].block) by {}
}

/// Handling a commit decision keeps the invariant.
pub proof fn lemma_wf_commit_decision(s: ObserverView, cd: CommitDecision, proof_ok: bool)
    requires
        view_wf(s),
    ensures
        view_wf(step_commit_decision(s, cd, proof_ok).0),
{
    let current = s.epoch == Some(cd.proof.epoch);
    if current && proof_ok && can_attach(s, cd) {
        lemma_ordered_index(s.ordered, cd.proof.epoch, cd.proof.round);
        let k = ordered_index(s.ordered, cd.proof.epoch, cd.proof.round);
        let o = s.ordered.update(k, OrderedView { block: s.ordered[k].block, decision: Some(cd) });
        assert forall|i: int| 0 <= i < o.len() implies #[trigger] o[i].block == s.ordered[i].block by {}
        assert forall|i: int, j: int| 0 <= i < j < o.len() implies info_lt(
            #[trigger] o[i].block.proof,
            #[trigger] o[j].block.proof,
        ) by {
            assert(o[i].block == s.ordered[i].block && o[j].block == s.ordered[j].block);
        }
        assert forall|i: int| 0 < i < o.len() implies #[trigger] o[i].block.blocks[0].parent_id
            == o[i - 1].block.proof.id by {
            assert(o[i].block == s.ordered[i].block && o[i - 1].block == s.ordered[i - 1].block);
        }
        assert forall|i: int, j: int| 0 <= i < s.pending.len() && 0 <= j < o.len() implies !same_point(
            #[trigger] s.pending[i].block.proof,
            #[trigger] o[j].block.proof,
        ) by {
            assert(o[j].block == s.ordered[j].block);
        }
    } else if !(current && !proof_ok) && info_lt(last_block(s), cd.proof) && s.sync != Some(true) {
        lemma_wf_purge(s, cd.proof, cd.proof, true);
    }
}

/// Handling any message keeps the invariant.
pub proof fn lemma_wf_message(s: ObserverView, peer: u64, now_ms: u64, m: MessageView, v: Verdicts)
    requires
        view_wf(s),
    ensures
        view_wf(step_message(s, peer, now_ms, m, v).0),
{
    let s1 = ObserverView {
        subscription: SubscriptionManager { last_message_ms: now_ms, ..s.subscription },
        ..s
    };
    match m {
        MessageView::Ordered(b) => lemma_wf_ordered_block(s1, b, v.proof_valid),
        MessageView::Commit(cd) => lemma_wf_commit_decision(s1, cd, v.proof_valid),
        MessageView::Payload(p) => lemma_wf_block_payload(s1, p, v.digests_valid, v.signatures_valid),
    }
}

/// Verifying payloads round by round keeps the invariant.
pub proof fn lemma_wf_verify_rounds(s: ObserverView, epoch: u64, rounds: Seq<u64>)
    requires
        view_wf(s),
    ensures
        view_wf(step_verify_rounds(s, epoch, rounds).0),
    decreases rounds.len(),
{
    if rounds.len() > 0 {
        lemma_wf_verify_rounds(s, epoch, rounds.drop_last());
        let s1 = step_verify_rounds(s, epoch, rounds.drop_last()).0;
        lemma_payload_updates_unique(s1.payloads, PayloadEntry { payload: BlockPayload { block: s1.root, digest: 0 }, verified: true }, 0, epoch, rounds.last());
        let s2 = ObserverView { payloads: payloads_mark(s1.payloads, epoch, rounds.last()), ..s1 };
        lemma_wf_order_ready(s2, epoch, rounds.last());
    }
}

/// Redoing the proof checks of buffered blocks on entering an epoch keeps the invariant.
pub proof fn lemma_wf_recheck(s: ObserverView, epoch: u64, qs: bool, valid: Seq<BlockInfo>)
    requires
        view_wf(s),
    ensures
        view_wf(ObserverView { epoch: Some(epoch), quorum_store_enabled: qs, pending: pending_recheck(s.pending, valid), ..s }),
{
    let p = pending_recheck(s.pending, valid);
    assert forall|i: int| 0 <= i < p.len() implies #[trigger] p[i].block == s.pending[i].block by {}
    assert forall|i: int, j: int| 0 <= i < j < p.len() implies !same_point(
        #[trigger] p[i].block.proof,
        #[trigger] p[j].block.proof,
    ) by {
        assert(p[i].block == s.pending[i].block && p[j].block == s.pending[j].block);
    }
    assert forall|i: int, j: int| 0 <= i < p.len() && 0 <= j < s.ordered.len() implies !same_point(
        #[trigger] p[i].block.proof,
        #[trigger] s.ordered[j].block.proof,
    ) by {
        assert(p[i].block == s.pending[i].block);
    }
    assert forall|i: int| 0 <= i < p.len() implies blocks_well_formed(#[trigger] p[i].block) by {
        assert(p[i].block == s.pending[i].block);
    }
}

/// An epoch change keeps the invariant.
pub proof fn lemma_wf_epoch_change(s: ObserverView, epoch: u64, qs: bool, valid: Seq<BlockInfo>, rounds: Seq<u64>)
    requires
        view_wf(s),
    ensures
        view_wf(step_epoch_change(s, epoch, qs, valid, rounds).0),
{
    lemma_wf_recheck(s, epoch, qs, valid);
    let s1 = ObserverView { epoch: Some(epoch), quorum_store_enabled: qs, pending: pending_recheck(s.pending, valid), ..s };
    lemma_wf_verify_rounds(s1, epoch, rounds);
}

/// A commit reported by execution keeps the invariant.
pub proof fn lemma_wf_commit_callback(s: ObserverView, li: BlockInfo)
    requires
        view_wf(s),
    ensures
        view_wf(step_commit_callback(s, li)),
{
    if li.epoch == s.root.epoch && li.round > s.root.round {
        lemma_wf_purge(s, li, li, false);
    } else {
        lemma_wf_purge(s, li, s.root, false);
    }
}

} // verus!
