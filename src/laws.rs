use vstd::prelude::*;

use crate::model::{
    can_attach, last_block, lemma_filter_member, no_actions, step_block_payload,
    step_check_progress, step_commit_callback, step_commit_decision, step_epoch_change,
    step_message, step_ordered_block, step_sync_notification, step_verify_rounds, view_wf,
    ActionView, MessageView, ObserverView, Verdicts,
};
use crate::ordered_blocks::{lemma_ordered_index, ordered_index, ordered_kept, OrderedView};
use crate::payload_store::{payload_index, payload_kept, PayloadEntry};
use crate::pending_blocks::{
    holds_block_at, pending_index, pending_kept, ready_index, PendingView,
};
use crate::types::{
    blocks_well_formed, info_le, info_lt, same_point, BlockInfo, BlockPayload, CommitDecision,
    OrderedBlockView,
};

verus! {

/// A message from any peer but the subscribed one changes nothing and
/// asks for nothing.
pub proof fn lemma_foreign_sender_changes_nothing(
    s: ObserverView,
    peer: u64,
    now_ms: u64,
    m: MessageView,
    v: Verdicts,
)
    requires
        s.subscription.active_peer != Some(peer),
    ensures
        step_message(s, peer, now_ms, m, v) == (s, no_actions()),
{
}

/// A commit decision for exactly the root's (epoch, round) changes nothing
/// and asks for nothing, whether its proof verified or not.
pub proof fn lemma_decision_at_root_is_noop(s: ObserverView, cd: CommitDecision, proof_ok: bool)
    requires
        view_wf(s),
        same_point(cd.proof, s.root),
    ensures
        step_commit_decision(s, cd, proof_ok) == (s, no_actions()),
{
    lemma_ordered_index(s.ordered, cd.proof.epoch, cd.proof.round);
    let k = ordered_index(s.ordered, cd.proof.epoch, cd.proof.round);
    if k >= 0 {
        assert(info_lt(s.root, s.ordered[k].block.proof));
    }
    assert(!can_attach(s, cd));
    if s.ordered.len() > 0 {
        assert(info_lt(s.root, s.ordered[s.ordered.len() - 1].block.proof));
    }
    assert(!info_lt(last_block(s), cd.proof));
}

/// Once a commit decision starts state sync, and once that sync reports
/// back, the root is the decision's block and no store holds anything at or
/// below it.
pub proof fn lemma_sync_purges_up_to_target(
    s: ObserverView,
    cd: CommitDecision,
    proof_ok: bool,
)
    requires
        view_wf(s),
        s.epoch.is_some(),
        step_commit_decision(s, cd, proof_ok).1.len() > 0,
        step_commit_decision(s, cd, proof_ok).1[0] is StartSync,
    ensures
        ({
            let s1 = step_commit_decision(s, cd, proof_ok).0;
            let s2 = step_sync_notification(s1, cd.proof.epoch, cd.proof.round).0;
            &&& s1.root == cd.proof
            &&& s2.root == cd.proof
            &&& forall|i: int|
                0 <= i < s2.payloads.len() ==> !info_le(#[trigger] s2.payloads[i].payload.block, cd.proof)
            &&& forall|i: int|
                0 <= i < s2.pending.len() ==> !info_le(#[trigger] s2.pending[i].block.proof, cd.proof)
            &&& forall|i: int|
                0 <= i < s2.ordered.len() ==> !info_le(#[trigger] s2.ordered[i].block.proof, cd.proof)
        }),
{
    let s1 = step_commit_decision(s, cd, proof_ok).0;
    let li = cd.proof;
    assert(s1.payloads == s.payloads.filter(payload_kept(li)));
    assert forall|i: int| 0 <= i < s1.payloads.len() implies !info_le(
        #[trigger] s1.payloads[i].payload.block,
        li,
    ) by {
        lemma_filter_member(s.payloads, payload_kept(li), i);
    }
    assert forall|i: int| 0 <= i < s1.pending.len() implies !info_le(
        #[trigger] s1.pending[i].block.proof,
        li,
    ) by {
        lemma_filter_member(s.pending, pending_kept(li), i);
    }
    assert forall|i: int| 0 <= i < s1.ordered.len() implies !info_le(
        #[trigger] s1.ordered[i].block.proof,
        li,
    ) by {
        lemma_filter_member(s.ordered, ordered_kept(li), i);
    }
}

/// An ordered block that links to the last block, and then the commit
/// decision for it, ask execution for exactly that block and then exactly
/// that decision; the stored block then carries the decision.
pub proof fn lemma_block_then_decision(
    s: ObserverView,
    b: OrderedBlockView,
    cd: CommitDecision,
)
    requires
        view_wf(s),
        s.sync.is_none(),
        s.epoch == Some(b.proof.epoch),
        blocks_well_formed(b),
        crate::pending_blocks::payloads_ready(s.payloads, s.quorum_store_enabled, b.blocks),
        crate::payload_store::digests_agree(s.payloads, b.blocks),
        b.blocks[0].parent_id == last_block(s).id,
        info_lt(last_block(s), b.proof),
        s.ordered.len() < s.ordered_cap,
        cd.proof == b.proof,
    ensures
        ({
            let (s1, a1) = step_ordered_block(s, b, true);
            let (s2, a2) = step_commit_decision(s1, cd, true);
            &&& a1 + a2 == seq![ActionView::Finalize(b), ActionView::ForwardCommit(cd)]
            &&& s2.ordered == s.ordered.push(OrderedView { block: b, decision: Some(cd) })
        }),
{
    let (s1, a1) = step_ordered_block(s, b, true);
    assert(s1.ordered == s.ordered.push(OrderedView { block: b, decision: None }));
    assert(s1.ordered.drop_last() =~= s.ordered);
    assert(ordered_index(s1.ordered, cd.proof.epoch, cd.proof.round) == s.ordered.len());
    assert(can_attach(s1, cd));
    let (s2, a2) = step_commit_decision(s1, cd, true);
    assert(s2.ordered =~= s.ordered.push(OrderedView { block: b, decision: Some(cd) }));
    assert(a1 + a2 =~= seq![ActionView::Finalize(b), ActionView::ForwardCommit(cd)]);
}

/// When no pending block holds a block at (epoch, round), none is ready there.
pub proof fn lemma_no_holder_no_ready(
    pending: Seq<PendingView>,
    epoch: u64,
    round: u64,
    payloads: Seq<PayloadEntry>,
    qs: bool,
)
    requires
        forall|i: int| 0 <= i < pending.len() ==> !holds_block_at(#[trigger] pending[i].block, epoch, round),
    ensures
        ready_index(pending, epoch, round, payloads, qs) == -1,
    decreases pending.len(),
{
    if pending.len() > 0 {
        assert(!holds_block_at(pending[pending.len() - 1].block, epoch, round));
        let d = pending.drop_last();
        assert forall|i: int| 0 <= i < d.len() implies !holds_block_at(#[trigger] d[i].block, epoch, round) by {
            assert(d[i] == pending[i]);
        }
        lemma_no_holder_no_ready(d, epoch, round, payloads, qs);
    }
}

/// A single-block ordered block and its payload, arriving in either order,
/// leave the same state and ask execution for the same thing; with room in
/// the payload and ordered stores, that is exactly the block.
pub proof fn lemma_arrival_order_irrelevant(
    s: ObserverView,
    b: OrderedBlockView,
    p: BlockPayload,
)
    requires
        view_wf(s),
        s.sync.is_none(),
        s.quorum_store_enabled,
        s.epoch == Some(b.proof.epoch),
        b.blocks.len() == 1,
        b.blocks[0].info == b.proof,
        p.block == b.proof,
        p.digest == b.blocks[0].payload_digest,
        payload_index(s.payloads, p.block.epoch, p.block.round) == -1,
        pending_index(s.pending, b.proof.epoch, b.proof.round) == -1,
        s.pending.len() < s.pending_cap,
        forall|i: int|
            0 <= i < s.pending.len() ==> !holds_block_at(#[trigger] s.pending[i].block, p.block.epoch, p.block.round),
        b.blocks[0].parent_id == last_block(s).id,
        info_lt(last_block(s), b.proof),
    ensures
        ({
            let (sa1, aa1) = step_block_payload(s, p, true, true);
            let (sa2, aa2) = step_ordered_block(sa1, b, true);
            let (sb1, ab1) = step_ordered_block(s, b, true);
            let (sb2, ab2) = step_block_payload(sb1, p, true, true);
            &&& sa2 == sb2
            &&& aa1 + aa2 == ab1 + ab2
            &&& s.payloads.len() < s.payload_cap && s.ordered.len() < s.ordered_cap ==> aa1 + aa2
                == seq![ActionView::Finalize(b)]
        }),
{
    let e = p.block.epoch;
    let r = p.block.round;
    let entry = PayloadEntry { payload: p, verified: true };
    assert(holds_block_at(b, e, r)) by {
        assert(b.blocks[0].info.epoch == e);
    }
    assert(!crate::payload_store::has_verified(s.payloads, b.blocks[0].info.epoch, b.blocks[0].info.round));
    assert(!crate::payload_store::all_verified(s.payloads, b.blocks));
    let x = PendingView { block: b, proof_verified: true };
    let pending2 = s.pending.push(x);
    assert(pending2.drop_last() =~= s.pending);
    let (sa1, aa1) = step_block_payload(s, p, true, true);
    let (sb1, ab1) = step_ordered_block(s, b, true);
    assert(sb1 == ObserverView { pending: pending2, ..s });
    if s.payloads.len() < s.payload_cap {
        let payloads2 = s.payloads.push(entry);
        assert(payloads2.drop_last() =~= s.payloads);
        assert(payload_index(payloads2, e, r) == s.payloads.len());
        assert(crate::payload_store::has_verified(payloads2, b.blocks[0].info.epoch, b.blocks[0].info.round));
        assert(crate::payload_store::all_verified(payloads2, b.blocks));
        assert(crate::payload_store::payload_digest_matches(payloads2, b.blocks[0]));
        assert(crate::payload_store::digests_agree(payloads2, b.blocks));
        // payload first
        lemma_no_holder_no_ready(s.pending, e, r, payloads2, true);
        assert(sa1 == ObserverView { payloads: payloads2, ..s });
        assert(aa1 == no_actions());
        let (sa2, aa2) = step_ordered_block(sa1, b, true);
        // block first
        assert(ready_index(pending2, e, r, payloads2, true) == s.pending.len());
        assert(pending2.remove(s.pending.len() as int) =~= s.pending);
        let (sb2, ab2) = step_block_payload(sb1, p, true, true);
        assert(aa1 + aa2 =~= ab1 + ab2);
        if s.ordered.len() < s.ordered_cap {
            assert(aa1 + aa2 =~= seq![ActionView::Finalize(b)]);
        }
    } else {
        // the payload is dropped either way, and the block waits
        lemma_no_holder_no_ready(s.pending, e, r, s.payloads, true);
        assert(sa1 == s);
        assert(aa1 == no_actions());
        let (sa2, aa2) = step_ordered_block(sa1, b, true);
        assert(!crate::pending_blocks::payloads_ready(s.payloads, true, b.blocks));
        assert(ready_index(pending2, e, r, s.payloads, true) == -1);
        let (sb2, ab2) = step_block_payload(sb1, p, true, true);
        assert(sb2 == sb1);
        assert(aa1 + aa2 =~= ab1 + ab2);
    }
}

/// The root never moves backward on an inbound message.
pub proof fn lemma_message_keeps_root_monotone(
    s: ObserverView,
    peer: u64,
    now_ms: u64,
    m: MessageView,
    v: Verdicts,
)
    requires
        view_wf(s),
    ensures
        info_le(s.root, step_message(s, peer, now_ms, m, v).0.root),
{
    if s.ordered.len() > 0 {
        assert(info_lt(s.root, s.ordered[s.ordered.len() - 1].block.proof));
    }
}

/// The root never moves backward on a commit reported by execution.
pub proof fn lemma_commit_report_keeps_root_monotone(s: ObserverView, li: BlockInfo)
    ensures
        info_le(s.root, step_commit_callback(s, li).root),
{
}

/// Verifying payloads at the start of an epoch leaves the root where it is.
pub proof fn lemma_verify_rounds_keeps_root(s: ObserverView, epoch: u64, rounds: Seq<u64>)
    ensures
        step_verify_rounds(s, epoch, rounds).0.root == s.root,
    decreases rounds.len(),
{
    if rounds.len() > 0 {
        lemma_verify_rounds_keeps_root(s, epoch, rounds.drop_last());
    }
}

/// Sync reports, epoch changes and progress checks leave the root where it is.
pub proof fn lemma_other_events_keep_root(
    s: ObserverView,
    epoch: u64,
    round: u64,
    qs: bool,
    valid: Seq<BlockInfo>,
    rounds: Seq<u64>,
    now_ms: u64,
    candidate: Option<u64>,
)
    requires
        s.epoch.is_some(),
    ensures
        step_sync_notification(s, epoch, round).0.root == s.root,
        step_epoch_change(s, epoch, qs, valid, rounds).0.root == s.root,
        step_check_progress(s, now_ms, candidate).0.root == s.root,
{
    lemma_verify_rounds_keeps_root(
        ObserverView {
            epoch: Some(epoch),
            quorum_store_enabled: qs,
            pending: crate::pending_blocks::pending_recheck(s.pending, valid),
            ..s
        },
        epoch,
        rounds,
    );
}

} // verus!
