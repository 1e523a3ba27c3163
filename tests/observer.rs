use consensus_observer::model::Verdicts;
use consensus_observer::observer::{Action, ConsensusObserver, ObserverMessage};
use consensus_observer::types::{BlockInfo, BlockPayload, BlockRecord, CommitDecision, OrderedBlock};

const PEER: u64 = 7;

fn info(epoch: u64, round: u64) -> BlockInfo {
    BlockInfo { epoch, round, id: epoch * 1000 + round }
}

fn single_block(epoch: u64, round: u64, parent: BlockInfo) -> OrderedBlock {
    let b = info(epoch, round);
    OrderedBlock {
        blocks: vec![BlockRecord { info: b, parent_id: parent.id, payload_digest: b.id + 5 }],
        proof: b,
    }
}

fn payload(epoch: u64, round: u64) -> BlockPayload {
    let b = info(epoch, round);
    BlockPayload { block: b, digest: b.id + 5 }
}

fn all_valid() -> Verdicts {
    Verdicts { digests_valid: true, signatures_valid: true, proof_valid: true }
}

/// An observer rooted at `root`, in `epoch`, subscribed to `PEER`.
fn observer(root: BlockInfo, epoch: u64, quorum_store: bool) -> ConsensusObserver {
    let mut o = ConsensusObserver::new(root, 100, 100, 100, 1000);
    o.start_epoch(epoch, quorum_store);
    let actions = o.check_progress(0, Some(PEER));
    assert_eq!(actions.len(), 1);
    assert!(matches!(actions[0], Action::ResetPipeline(r) if r == root));
    o
}

fn send(o: &mut ConsensusObserver, m: ObserverMessage) -> Vec<Action> {
    o.process_network_message(PEER, 1, m, all_valid())
}

fn finalized_point(a: &Action) -> Option<(u64, u64)> {
    match a {
        Action::Finalize(b) => Some((b.proof.epoch, b.proof.round)),
        _ => None,
    }
}

#[test]
fn block_waits_in_pending_store_until_its_payload_arrives() {
    let root = info(2, 6);
    let mut o = observer(root, 2, true);
    let a = send(&mut o, ObserverMessage::OrderedBlock(single_block(2, 7, root)));
    assert!(a.is_empty());
    assert_eq!(o.pending_block_store().len(), 1);
    assert_eq!(o.ordered_block_store().len(), 0);
    let a = send(&mut o, ObserverMessage::BlockPayload(payload(2, 7)));
    assert_eq!(a.len(), 1);
    assert_eq!(finalized_point(&a[0]), Some((2, 7)));
    assert_eq!(o.pending_block_store().len(), 0);
    assert_eq!(o.ordered_block_store().len(), 1);
    assert_eq!(o.ordered_block_store().block_at(0).proof, info(2, 7));
}

#[test]
fn payload_before_block_sends_block_straight_to_ordered_store() {
    let root = info(2, 6);
    let mut o = observer(root, 2, true);
    let a = send(&mut o, ObserverMessage::BlockPayload(payload(2, 7)));
    assert!(a.is_empty());
    assert_eq!(o.block_payload_store().len(), 1);
    assert!(o.block_payload_store().entry(0).verified);
    let a = send(&mut o, ObserverMessage::OrderedBlock(single_block(2, 7, root)));
    assert_eq!(a.len(), 1);
    assert_eq!(finalized_point(&a[0]), Some((2, 7)));
    assert_eq!(o.pending_block_store().len(), 0);
    assert_eq!(o.ordered_block_store().len(), 1);
}

#[test]
fn arrival_order_of_payload_and_block_does_not_matter() {
    let root = info(2, 6);
    let mut first = observer(root, 2, true);
    let mut a1 = send(&mut first, ObserverMessage::BlockPayload(payload(2, 7)));
    a1.extend(send(&mut first, ObserverMessage::OrderedBlock(single_block(2, 7, root))));
    let mut second = observer(root, 2, true);
    let mut a2 = send(&mut second, ObserverMessage::OrderedBlock(single_block(2, 7, root)));
    a2.extend(send(&mut second, ObserverMessage::BlockPayload(payload(2, 7))));
    let points_a: Vec<_> = a1.iter().map(finalized_point).collect();
    let points_b: Vec<_> = a2.iter().map(finalized_point).collect();
    assert_eq!(points_a, vec![Some((2, 7))]);
    assert_eq!(points_a, points_b);
    assert_eq!(first.ordered_block_store().len(), second.ordered_block_store().len());
    assert_eq!(first.pending_block_store().len(), second.pending_block_store().len());
    assert_eq!(first.block_payload_store().len(), second.block_payload_store().len());
}

#[test]
fn decision_at_root_is_a_no_op() {
    let root = info(5, 10);
    let mut o = observer(root, 5, false);
    let a = send(&mut o, ObserverMessage::CommitDecision(CommitDecision { proof: root }));
    assert!(a.is_empty());
    assert_eq!(o.root(), root);
    assert!(!o.in_state_sync_mode());
}

#[test]
fn state_sync_purges_everything_up_to_target() {
    let root = info(6, 0);
    let mut o = observer(root, 6, true);
    for r in [2u64, 3, 5] {
        send(&mut o, ObserverMessage::BlockPayload(payload(6, r)));
    }
    send(&mut o, ObserverMessage::OrderedBlock(single_block(6, 9, info(6, 8))));
    assert_eq!(o.block_payload_store().len(), 3);
    let target = info(6, 3);
    let a = send(&mut o, ObserverMessage::CommitDecision(CommitDecision { proof: target }));
    assert_eq!(a.len(), 1);
    assert!(matches!(a[0], Action::StartSync { target: t, epoch_changed: false } if t.proof == target));
    assert_eq!(o.root(), target);
    assert!(o.in_state_sync_mode());
    assert_eq!(o.block_payload_store().len(), 1);
    assert_eq!(o.block_payload_store().entry(0).payload.block, info(6, 5));
    assert_eq!(o.pending_block_store().len(), 1);
    let a = o.process_sync_notification(6, 3);
    assert!(a.is_empty());
    assert!(!o.in_state_sync_mode());
    assert_eq!(o.root(), target);
    assert_eq!(o.block_payload_store().len(), 1);
}

#[test]
fn message_from_other_peer_is_not_reflected_anywhere() {
    let root = info(2, 6);
    let mut o = observer(root, 2, true);
    let a = o.process_network_message(9, 1, ObserverMessage::BlockPayload(payload(2, 7)), all_valid());
    assert!(a.is_empty());
    let a = o.process_network_message(9, 1, ObserverMessage::OrderedBlock(single_block(2, 7, root)), all_valid());
    assert!(a.is_empty());
    let a = o.process_network_message(
        9,
        1,
        ObserverMessage::CommitDecision(CommitDecision { proof: info(2, 20) }),
        all_valid(),
    );
    assert!(a.is_empty());
    assert_eq!(o.block_payload_store().len(), 0);
    assert_eq!(o.pending_block_store().len(), 0);
    assert_eq!(o.ordered_block_store().len(), 0);
    assert_eq!(o.root(), root);
    assert_eq!(o.subscription().last_message_ms, 0);
}

#[test]
fn block_then_decision_forwards_block_then_decision() {
    let root = info(2, 6);
    let mut o = observer(root, 2, false);
    send(&mut o, ObserverMessage::BlockPayload(payload(2, 7)));
    let mut a = send(&mut o, ObserverMessage::OrderedBlock(single_block(2, 7, root)));
    let cd = CommitDecision { proof: info(2, 7) };
    a.extend(send(&mut o, ObserverMessage::CommitDecision(cd)));
    assert_eq!(a.len(), 2);
    assert_eq!(finalized_point(&a[0]), Some((2, 7)));
    assert!(matches!(a[1], Action::ForwardCommit(d) if d == cd));
    assert_eq!(o.ordered_block_store().decision_at(0), Some(cd));
}

#[test]
fn decision_during_sync_is_attached_and_replayed_with_its_block() {
    let root = info(2, 6);
    let mut o = observer(root, 2, false);
    let a = send(&mut o, ObserverMessage::CommitDecision(CommitDecision { proof: info(2, 8) }));
    assert!(matches!(a[0], Action::StartSync { .. }));
    send(&mut o, ObserverMessage::BlockPayload(payload(2, 9)));
    let a = send(&mut o, ObserverMessage::OrderedBlock(single_block(2, 9, info(2, 8))));
    assert!(a.is_empty());
    let cd = CommitDecision { proof: info(2, 9) };
    let a = send(&mut o, ObserverMessage::CommitDecision(cd));
    assert!(a.is_empty());
    let a = o.process_sync_notification(2, 8);
    assert_eq!(a.len(), 2);
    assert_eq!(finalized_point(&a[0]), Some((2, 9)));
    assert!(matches!(a[1], Action::ForwardCommit(d) if d == cd));
}

#[test]
fn decision_before_block_starts_sync_and_block_is_then_stale() {
    let root = info(2, 6);
    let mut o = observer(root, 2, false);
    let a = send(&mut o, ObserverMessage::CommitDecision(CommitDecision { proof: info(2, 7) }));
    assert_eq!(a.len(), 1);
    assert!(matches!(a[0], Action::StartSync { epoch_changed: false, .. }));
    let a = send(&mut o, ObserverMessage::OrderedBlock(single_block(2, 7, root)));
    assert!(a.is_empty());
    assert_eq!(o.ordered_block_store().len(), 0);
}

#[test]
fn later_epoch_decision_owns_the_only_sync() {
    let root = info(3, 5);
    let mut o = observer(root, 3, false);
    let a = send(&mut o, ObserverMessage::CommitDecision(CommitDecision { proof: info(4, 2) }));
    assert_eq!(a.len(), 1);
    assert!(matches!(a[0], Action::StartSync { target, epoch_changed: true } if target.proof == info(4, 2)));
    assert!(o.in_state_sync_epoch_change());
    let a = send(&mut o, ObserverMessage::CommitDecision(CommitDecision { proof: info(3, 9) }));
    assert!(a.is_empty());
    assert_eq!(o.root(), info(4, 2));
    let a = send(&mut o, ObserverMessage::CommitDecision(CommitDecision { proof: info(4, 7) }));
    assert!(a.is_empty());
    assert_eq!(o.root(), info(4, 2));
}

#[test]
fn stale_sync_notification_is_ignored() {
    let root = info(2, 6);
    let mut o = observer(root, 2, false);
    send(&mut o, ObserverMessage::CommitDecision(CommitDecision { proof: info(2, 8) }));
    let a = o.process_sync_notification(2, 7);
    assert!(a.is_empty());
    assert!(o.in_state_sync_mode());
}

#[test]
fn epoch_change_after_sync_verifies_buffered_payloads() {
    let root = info(3, 5);
    let mut o = observer(root, 3, true);
    let target = info(4, 2);
    send(&mut o, ObserverMessage::CommitDecision(CommitDecision { proof: target }));
    send(&mut o, ObserverMessage::BlockPayload(payload(4, 3)));
    assert!(!o.block_payload_store().entry(0).verified);
    send(&mut o, ObserverMessage::OrderedBlock(single_block(4, 3, target)));
    assert_eq!(o.pending_block_store().len(), 1);
    let a = o.process_sync_notification(4, 2);
    assert_eq!(a.len(), 1);
    assert!(matches!(a[0], Action::EndEpoch));
    let a = o.complete_epoch_change(4, true, &vec![info(4, 3)], &vec![3]);
    assert_eq!(o.current_epoch(), Some(4));
    assert!(!o.in_state_sync_mode());
    assert!(o.block_payload_store().entry(0).verified);
    assert_eq!(o.pending_block_store().len(), 0);
    assert_eq!(a.len(), 1);
    assert_eq!(finalized_point(&a[0]), Some((4, 3)));
}

#[test]
fn commit_callback_moves_root_forward_within_epoch_only() {
    let root = info(2, 6);
    let mut o = observer(root, 2, false);
    send(&mut o, ObserverMessage::BlockPayload(payload(2, 7)));
    send(&mut o, ObserverMessage::BlockPayload(payload(2, 8)));
    send(&mut o, ObserverMessage::OrderedBlock(single_block(2, 7, root)));
    send(&mut o, ObserverMessage::OrderedBlock(single_block(2, 8, info(2, 7))));
    assert_eq!(o.ordered_block_store().len(), 2);
    o.process_commit_callback(info(2, 7));
    assert_eq!(o.root(), info(2, 7));
    assert_eq!(o.ordered_block_store().len(), 1);
    assert_eq!(o.block_payload_store().len(), 1);
    o.process_commit_callback(info(2, 5));
    assert_eq!(o.root(), info(2, 7));
    o.process_commit_callback(info(3, 1));
    assert_eq!(o.root(), info(2, 7));
    assert_eq!(o.ordered_block_store().len(), 0);
}

#[test]
fn silent_subscription_is_replaced_and_state_wiped() {
    let root = info(2, 6);
    let mut o = observer(root, 2, true);
    send(&mut o, ObserverMessage::BlockPayload(payload(2, 7)));
    assert!(o.check_progress(500, Some(8)).is_empty());
    assert_eq!(o.subscription().active_peer, Some(PEER));
    let a = o.check_progress(5000, Some(8));
    assert_eq!(a.len(), 1);
    assert!(matches!(a[0], Action::ResetPipeline(r) if r == root));
    assert_eq!(o.subscription().active_peer, Some(8));
    assert_eq!(o.block_payload_store().len(), 0);
}

#[test]
fn progress_check_does_nothing_during_sync() {
    let root = info(2, 6);
    let mut o = observer(root, 2, false);
    send(&mut o, ObserverMessage::CommitDecision(CommitDecision { proof: info(2, 8) }));
    assert!(o.check_progress(99999, Some(8)).is_empty());
    assert_eq!(o.subscription().active_peer, Some(PEER));
}

#[test]
fn malformed_or_unlinked_blocks_are_dropped() {
    let root = info(2, 6);
    let mut o = observer(root, 2, false);
    let empty = OrderedBlock { blocks: vec![], proof: info(2, 7) };
    assert!(send(&mut o, ObserverMessage::OrderedBlock(empty)).is_empty());
    let unlinked = single_block(2, 7, info(2, 3));
    assert!(send(&mut o, ObserverMessage::OrderedBlock(unlinked)).is_empty());
    let a = o.process_network_message(
        PEER,
        1,
        ObserverMessage::OrderedBlock(single_block(2, 7, root)),
        Verdicts { digests_valid: true, signatures_valid: true, proof_valid: false },
    );
    assert!(a.is_empty());
    let other_epoch = single_block(3, 7, root);
    assert!(send(&mut o, ObserverMessage::OrderedBlock(other_epoch)).is_empty());
    assert_eq!(o.ordered_block_store().len(), 0);
}

#[test]
fn payload_with_bad_digest_or_signature_is_dropped() {
    let root = info(2, 6);
    let mut o = observer(root, 2, true);
    let bad_digest = Verdicts { digests_valid: false, signatures_valid: true, proof_valid: true };
    assert!(o.process_network_message(PEER, 1, ObserverMessage::BlockPayload(payload(2, 7)), bad_digest).is_empty());
    let bad_sig = Verdicts { digests_valid: true, signatures_valid: false, proof_valid: true };
    assert!(o.process_network_message(PEER, 1, ObserverMessage::BlockPayload(payload(2, 7)), bad_sig).is_empty());
    assert_eq!(o.block_payload_store().len(), 0);
}

#[test]
fn decision_with_bad_proof_in_current_epoch_is_dropped() {
    let root = info(2, 6);
    let mut o = observer(root, 2, false);
    let a = o.process_network_message(
        PEER,
        1,
        ObserverMessage::CommitDecision(CommitDecision { proof: info(2, 9) }),
        Verdicts { digests_valid: true, signatures_valid: true, proof_valid: false },
    );
    assert!(a.is_empty());
    assert!(!o.in_state_sync_mode());
    assert_eq!(o.root(), root);
}

#[test]
fn full_pending_store_drops_new_blocks() {
    let root = info(2, 6);
    let mut o = ConsensusObserver::new(root, 10, 1, 10, 1000);
    o.start_epoch(2, true);
    o.check_progress(0, Some(PEER));
    send(&mut o, ObserverMessage::OrderedBlock(single_block(2, 7, root)));
    send(&mut o, ObserverMessage::OrderedBlock(single_block(2, 8, info(2, 7))));
    assert_eq!(o.pending_block_store().len(), 1);
}

#[test]
fn block_at_a_stored_point_is_not_buffered_again() {
    let root = info(2, 6);
    let mut o = observer(root, 2, true);
    send(&mut o, ObserverMessage::BlockPayload(payload(2, 7)));
    send(&mut o, ObserverMessage::OrderedBlock(single_block(2, 7, root)));
    assert_eq!(o.ordered_block_store().len(), 1);
    let mut again = single_block(2, 7, root);
    again.blocks[0].payload_digest = 1;
    let a = send(&mut o, ObserverMessage::OrderedBlock(again));
    assert!(a.is_empty());
    assert_eq!(o.pending_block_store().len(), 0);
    assert_eq!(o.ordered_block_store().len(), 1);
    let stale = single_block(2, 5, info(2, 4));
    assert!(send(&mut o, ObserverMessage::OrderedBlock(stale)).is_empty());
    assert_eq!(o.pending_block_store().len(), 0);
}

#[test]
fn block_whose_payload_disagrees_is_dropped_without_quorum_store() {
    let root = info(2, 6);
    let mut o = observer(root, 2, false);
    let a = send(&mut o, ObserverMessage::OrderedBlock(single_block(2, 7, root)));
    assert!(a.is_empty());
    send(&mut o, ObserverMessage::BlockPayload(BlockPayload { block: info(2, 7), digest: 1 }));
    let a = send(&mut o, ObserverMessage::OrderedBlock(single_block(2, 7, root)));
    assert!(a.is_empty());
    assert_eq!(o.ordered_block_store().len(), 0);
}

#[test]
fn buffered_block_of_next_epoch_is_replayed_after_epoch_change() {
    let root = info(3, 5);
    let mut o = observer(root, 3, true);
    send(&mut o, ObserverMessage::CommitDecision(CommitDecision { proof: info(4, 2) }));
    let not_yet = Verdicts { digests_valid: true, signatures_valid: false, proof_valid: false };
    o.process_network_message(PEER, 1, ObserverMessage::OrderedBlock(single_block(4, 3, info(4, 2))), not_yet);
    o.process_network_message(PEER, 1, ObserverMessage::BlockPayload(payload(4, 3)), not_yet);
    assert_eq!(o.pending_block_store().len(), 1);
    assert_eq!(o.block_payload_store().payloads_awaiting_verification(4), vec![payload(4, 3)]);
    o.process_sync_notification(4, 2);
    let a = o.complete_epoch_change(4, true, &vec![info(4, 3)], &vec![3]);
    assert_eq!(a.len(), 1);
    assert_eq!(finalized_point(&a[0]), Some((4, 3)));
    assert_eq!(o.block_payload_store().payloads_awaiting_verification(4), vec![]);
}

#[test]
fn buffered_block_whose_proof_fails_in_new_epoch_is_dropped() {
    let root = info(3, 5);
    let mut o = observer(root, 3, true);
    send(&mut o, ObserverMessage::CommitDecision(CommitDecision { proof: info(4, 2) }));
    send(&mut o, ObserverMessage::OrderedBlock(single_block(4, 3, info(4, 2))));
    send(&mut o, ObserverMessage::BlockPayload(payload(4, 3)));
    o.process_sync_notification(4, 2);
    let a = o.complete_epoch_change(4, true, &vec![], &vec![3]);
    assert!(a.is_empty());
    assert_eq!(o.pending_block_store().len(), 0);
    assert_eq!(o.ordered_block_store().len(), 0);
}
