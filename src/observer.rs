use vstd::prelude::*;

use crate::model::{
    lemma_payload_updates_unique, lemma_wf_commit_callback, lemma_wf_commit_decision,
    lemma_wf_ordered_block, lemma_wf_process_ordered, lemma_wf_recheck, lemma_wf_remove_pending,
    last_block, no_actions, step_attach, step_block_payload, step_check_progress,
    step_commit_callback, step_commit_decision, step_epoch_change, step_finish_sync,
    step_message, step_order_ready_pending, step_ordered_block, step_process_ordered,
    step_sync_notification, step_verify_rounds, can_attach, replay, view_wf,
    ActionView, MessageView, ObserverView, Verdicts,
};
use crate::ordered_blocks::{ordered_purge, OrderedBlockStore, OrderedView};
use crate::payload_store::{BlockPayloadStore, PayloadEntry};
use crate::pending_blocks::{lemma_ready_index, payloads_ready, PendingBlockStore, PendingView};
use crate::subscription::SubscriptionManager;
use crate::types::{
    blocks_well_formed, info_lt, is_before, verify_ordered_blocks, BlockInfo, BlockPayload,
    CommitDecision, OrderedBlock,
};

verus! {

broadcast use vstd::seq_lib::group_filter_ensures;

/// What the observer asks of the execution pipeline and of state sync.
#[derive(Debug)]
pub enum Action {
    /// Hand an ordered block to execution.
    Finalize(OrderedBlock),
    /// Hand a commit decision to execution.
    ForwardCommit(CommitDecision),
    /// Sync to the target in the background (replacing any sync under way),
    /// then report its epoch and round back.
    StartSync { target: CommitDecision, epoch_changed: bool },
    /// Reset the execution pipeline to this root.
    ResetPipeline(BlockInfo),
    /// End the current epoch, wait for the next one to start, and report it.
    EndEpoch,
}

impl View for Action {
    type V = ActionView;

    open spec fn view(&self) -> ActionView {
        match self {
            Action::Finalize(b) => ActionView::Finalize(b@),
            Action::ForwardCommit(cd) => ActionView::ForwardCommit(*cd),
            Action::StartSync { target, epoch_changed } => ActionView::StartSync(*target, *epoch_changed),
            Action::ResetPipeline(li) => ActionView::ResetPipeline(*li),
            Action::EndEpoch => ActionView::EndEpoch,
        }
    }
}

pub open spec fn views(a: Seq<Action>) -> Seq<ActionView> {
    a.map_values(|x: Action| x@)
}

proof fn lemma_views_push(a: Seq<Action>, x: Action)
    ensures
        views(a.push(x)) == views(a) + seq![x@],
{
    assert(views(a.push(x)) =~= views(a) + seq![x@]);
}

/// A message from the upstream peer.
#[derive(Debug)]
pub enum ObserverMessage {
    OrderedBlock(OrderedBlock),
    CommitDecision(CommitDecision),
    BlockPayload(BlockPayload),
}

impl View for ObserverMessage {
    type V = MessageView;

    open spec fn view(&self) -> MessageView {
        match self {
            ObserverMessage::OrderedBlock(b) => MessageView::Ordered(b@),
            ObserverMessage::CommitDecision(cd) => MessageView::Commit(*cd),
            ObserverMessage::BlockPayload(p) => MessageView::Payload(*p),
        }
    }
}

/// True iff `epoch` and `round` are those of `root`.
pub fn check_root_epoch_and_round(root: &BlockInfo, epoch: u64, round: u64) -> (r: bool)
    ensures
        r == (root.epoch == epoch && root.round == round),
{
    root.epoch == epoch && root.round == round
}

/// Follows one upstream peer and decides what goes to execution.
pub struct ConsensusObserver {
    root: BlockInfo,
    epoch: Option<u64>,
    quorum_store_enabled: bool,
    block_payload_store: BlockPayloadStore,
    pending_block_store: PendingBlockStore,
    ordered_block_store: OrderedBlockStore,
    sync: Option<bool>,
    subscription_manager: SubscriptionManager,
}

impl View for ConsensusObserver {
    type V = ObserverView;

    closed spec fn view(&self) -> ObserverView {
        ObserverView {
            root: self.root,
            epoch: self.epoch,
            quorum_store_enabled: self.quorum_store_enabled,
            payloads: self.block_payload_store@,
            payload_cap: self.block_payload_store.capacity(),
            pending: self.pending_block_store@,
            pending_cap: self.pending_block_store.capacity(),
            ordered: self.ordered_block_store@,
            ordered_cap: self.ordered_block_store.capacity(),
            sync: self.sync,
            subscription: self.subscription_manager,
        }
    }
}

impl ConsensusObserver {
    pub open spec fn wf(&self) -> bool {
        view_wf(self@)
    }

    /// An observer that waits for its first epoch, rooted at `root`.
    pub fn new(
        root: BlockInfo,
        max_payloads: u64,
        max_pending_blocks: u64,
        max_ordered_blocks: u64,
        max_silence_ms: u64,
    ) -> (r: Self)
        ensures
            r.wf(),
            r@.root == root,
            r@.epoch.is_none(),
            !r@.quorum_store_enabled,
            r@.payloads.len() == 0,
            r@.pending.len() == 0,
            r@.ordered.len() == 0,
            r@.payload_cap == max_payloads,
            r@.pending_cap == max_pending_blocks,
            r@.ordered_cap == max_ordered_blocks,
            r@.sync.is_none(),
            r@.subscription == SubscriptionManager::new_spec(max_silence_ms),
    {
        ConsensusObserver {
            root,
            epoch: None,
            quorum_store_enabled: false,
            block_payload_store: BlockPayloadStore::new(max_payloads),
            pending_block_store: PendingBlockStore::new(max_pending_blocks),
            ordered_block_store: OrderedBlockStore::new(max_ordered_blocks),
            sync: None,
            subscription_manager: SubscriptionManager::new(max_silence_ms),
        }
    }

    pub fn root(&self) -> (r: BlockInfo)
        ensures
            r == self@.root,
    {
        self.root
    }

    pub fn current_epoch(&self) -> (r: Option<u64>)
        ensures
            r == self@.epoch,
    {
        self.epoch
    }

    pub fn subscription(&self) -> (r: SubscriptionManager)
        ensures
            r == self@.subscription,
    {
        self.subscription_manager
    }

    pub fn block_payload_store(&self) -> (r: &BlockPayloadStore)
        ensures
            r@ == self@.payloads,
    {
        &self.block_payload_store
    }

    pub fn pending_block_store(&self) -> (r: &PendingBlockStore)
        ensures
            r@ == self@.pending,
    {
        &self.pending_block_store
    }

    pub fn ordered_block_store(&self) -> (r: &OrderedBlockStore)
        ensures
            r@ == self@.ordered,
    {
        &self.ordered_block_store
    }

    /// True iff state sync is under way.
    pub fn in_state_sync_mode(&self) -> (r: bool)
        ensures
            r == self@.sync.is_some(),
    {
        self.sync.is_some()
    }

    /// True iff state sync is under way towards a new epoch.
    pub fn in_state_sync_epoch_change(&self) -> (r: bool)
        ensures
            r == (self@.sync == Some(true)),
    {
        match self.sync {
            Some(changed) => changed,
            None => false,
        }
    }

    /// The last block known: the newest ordered block, or else the root.
    pub fn get_last_block(&self) -> (r: BlockInfo)
        ensures
            r == last_block(self@),
    {
        match self.ordered_block_store.get_last_ordered_block() {
            Some(b) => b,
            None => self.root,
        }
    }

    /// True iff all payloads of the blocks are at hand.
    pub fn all_payloads_exist(&self, blocks: &Vec<crate::types::BlockRecord>) -> (r: bool)
        ensures
            r == payloads_ready(self@.payloads, self@.quorum_store_enabled, blocks@),
    {
        if !self.quorum_store_enabled {
            true
        } else {
            self.block_payload_store.all_payloads_exist(blocks)
        }
    }

    fn process_ordered_block(&mut self, b: OrderedBlock, proof_ok: bool, out: &mut Vec<Action>)
        requires
            old(self).wf(),
            blocks_well_formed(b@),
        ensures
            final(self).wf(),
            final(self)@ == step_process_ordered(old(self)@, b@, proof_ok).0,
            views(final(out)@) == views(old(out)@) + step_process_ordered(old(self)@, b@, proof_ok).1,
    {
        let ghost s = self@;
        proof { lemma_wf_process_ordered(s, b@, proof_ok); }
        let last = self.get_last_block();
        let epoch_matches = match self.epoch {
            Some(e) => e == b.proof.epoch,
            None => false,
        };
        if !(epoch_matches && proof_ok) {
            assert(views(out@) =~= views(out@) + no_actions());
            return;
        }
        if !self.block_payload_store.verify_payloads_against_ordered_block(&b.blocks) {
            assert(views(out@) =~= views(out@) + no_actions());
            return;
        }
        if b.blocks[0].parent_id == last.id && is_before(&last, &b.proof) && self.ordered_block_store.has_room() {
            let proof_info = b.proof;
            self.pending_block_store.remove_point(&proof_info);
            if self.sync.is_none() {
                let copy = b.duplicate();
                self.ordered_block_store.insert_ordered_block(b);
                proof { lemma_views_push(out@, Action::Finalize(copy)); }
                out.push(Action::Finalize(copy));
            } else {
                self.ordered_block_store.insert_ordered_block(b);
                assert(views(out@) =~= views(out@) + no_actions());
            }
        } else {
            assert(views(out@) =~= views(out@) + no_actions());
        }
    }

    fn process_ordered_block_message(&mut self, b: OrderedBlock, proof_ok: bool, out: &mut Vec<Action>)
        requires
            old(self).wf(),
        ensures
            final(self).wf(),
            final(self)@ == step_ordered_block(old(self)@, b@, proof_ok).0,
            views(final(out)@) == views(old(out)@) + step_ordered_block(old(self)@, b@, proof_ok).1,
    {
        let ghost s = self@;
        proof { lemma_wf_ordered_block(s, b@, proof_ok); }
        if !verify_ordered_blocks(&b) || !is_before(&self.get_last_block(), &b.proof) {
            assert(views(out@) =~= views(out@) + no_actions());
            return;
        }
        if self.all_payloads_exist(&b.blocks) {
            self.process_ordered_block(b, proof_ok, out);
        } else {
            self.pending_block_store.insert_pending_block(b, proof_ok);
            assert(views(out@) =~= views(out@) + no_actions());
        }
    }

    fn order_ready_pending_block(&mut self, epoch: u64, round: u64, out: &mut Vec<Action>)
        requires
            old(self).wf(),
        ensures
            final(self).wf(),
            final(self)@ == step_order_ready_pending(old(self)@, epoch, round).0,
            views(final(out)@) == views(old(out)@) + step_order_ready_pending(old(self)@, epoch, round).1,
    {
        let ghost s = self@;
        proof {
            lemma_ready_index(s.pending, epoch, round, s.payloads, s.quorum_store_enabled);
        }
        match self.pending_block_store.find_ready(
            epoch,
            round,
            &self.block_payload_store,
            self.quorum_store_enabled,
        ) {
            None => {
                assert(views(out@) =~= views(out@) + no_actions());
            },
            Some(k) => {
                let e = self.pending_block_store.remove_at(k);
                proof { lemma_wf_remove_pending(s, k as int); }
                assert(blocks_well_formed(s.pending[k as int].block));
                self.process_ordered_block(e.block, e.proof_verified, out);
            },
        }
    }

    fn process_block_payload_message(
        &mut self,
        p: BlockPayload,
        digests_ok: bool,
        sigs_ok: bool,
        out: &mut Vec<Action>,
    )
        requires
            old(self).wf(),
        ensures
            final(self).wf(),
            final(self)@ == step_block_payload(old(self)@, p, digests_ok, sigs_ok).0,
            views(final(out)@) == views(old(out)@) + step_block_payload(old(self)@, p, digests_ok, sigs_ok).1,
    {
        if !digests_ok {
            assert(views(out@) =~= views(out@) + no_actions());
            return;
        }
        let current = match self.epoch {
            Some(e) => e == p.block.epoch,
            None => false,
        };
        if current {
            if !sigs_ok {
                assert(views(out@) =~= views(out@) + no_actions());
                return;
            }
            let ghost s = self@;
            proof {
                lemma_payload_updates_unique(s.payloads, PayloadEntry { payload: p, verified: true }, s.payload_cap, 0, 0);
            }
            self.block_payload_store.insert_block_payload(p, true);
            assert(self@.ordered == s.ordered);
            assert(self@.pending == s.pending);
            assert(self@.root == s.root);
            self.order_ready_pending_block(p.block.epoch, p.block.round, out);
        } else {
            let ghost s = self@;
            proof {
                lemma_payload_updates_unique(s.payloads, PayloadEntry { payload: p, verified: false }, s.payload_cap, 0, 0);
            }
            self.block_payload_store.insert_block_payload(p, false);
            assert(self@.ordered == s.ordered);
            assert(self@.pending == s.pending);
            assert(views(out@) =~= views(out@) + no_actions());
        }
    }

    /// Attaches a verified decision to its stored block when that block has
    /// all its payloads, forwarding it unless state sync runs; returns
    /// whether it did.
    fn process_commit_decision_for_pending_block(&mut self, cd: CommitDecision, out: &mut Vec<Action>) -> (r: bool)
        ensures
            r == can_attach(old(self)@, cd),
            r ==> final(self)@ == step_attach(old(self)@, cd).0,
            r ==> views(final(out)@) == views(old(out)@) + step_attach(old(self)@, cd).1,
            !r ==> final(self)@ == old(self)@ && final(out)@ == old(out)@,
    {
        let ghost s = self@;
        proof { crate::ordered_blocks::lemma_ordered_index(s.ordered, cd.proof.epoch, cd.proof.round); }
        match self.ordered_block_store.find(cd.proof.epoch, cd.proof.round) {
            None => false,
            Some(k) => {
                let ready = self.all_payloads_exist(&self.ordered_block_store.block_at(k).blocks);
                if ready {
                    self.ordered_block_store.update_commit_decision(k, cd);
                    if self.sync.is_none() {
                        proof { lemma_views_push(out@, Action::ForwardCommit(cd)); }
                        out.push(Action::ForwardCommit(cd));
                    } else {
                        assert(views(out@) =~= views(out@) + no_actions());
                    }
                    true
                } else {
                    false
                }
            },
        }
    }

    fn process_commit_decision_message(&mut self, cd: CommitDecision, proof_ok: bool, out: &mut Vec<Action>)
        requires
            old(self).wf(),
        ensures
            final(self).wf(),
            final(self)@ == step_commit_decision(old(self)@, cd, proof_ok).0,
            views(final(out)@) == views(old(out)@) + step_commit_decision(old(self)@, cd, proof_ok).1,
    {
        let ghost s = self@;
        proof { lemma_wf_commit_decision(s, cd, proof_ok); }
        let current = match self.epoch {
            Some(e) => e == cd.proof.epoch,
            None => false,
        };
        if current {
            if !proof_ok {
                assert(views(out@) =~= views(out@) + no_actions());
                return;
            }
            if self.process_commit_decision_for_pending_block(cd, out) {
                return;
            }
        }
        let last = self.get_last_block();
        if is_before(&last, &cd.proof) {
            if self.in_state_sync_epoch_change() {
                assert(views(out@) =~= views(out@) + no_actions());
                return;
            }
            let epoch_changed = cd.proof.epoch > last.epoch;
            self.root = cd.proof;
            self.block_payload_store.remove_blocks_for_commit(&cd.proof);
            self.pending_block_store.remove_blocks_for_commit(&cd.proof);
            self.ordered_block_store.remove_blocks_for_commit(&cd.proof);
            self.sync = Some(epoch_changed);
            assert(self@.pending == crate::pending_blocks::pending_purge(s.pending, cd.proof));
            assert(self@.ordered == ordered_purge(s.ordered, cd.proof));
            assert(self@.root == cd.proof);
            proof { lemma_views_push(out@, Action::StartSync { target: cd, epoch_changed }); }
            out.push(Action::StartSync { target: cd, epoch_changed });
        } else {
            assert(views(out@) =~= views(out@) + no_actions());
        }
    }

    /// Handles one message from `peer` at `now_ms`, given the outcomes of its
    /// cryptographic checks; a message from any peer but the subscribed one
    /// changes nothing.
    pub fn process_network_message(
        &mut self,
        peer: u64,
        now_ms: u64,
        message: ObserverMessage,
        verdicts: Verdicts,
    ) -> (r: Vec<Action>)
        requires
            old(self).wf(),
        ensures
            final(self).wf(),
            final(self)@ == step_message(old(self)@, peer, now_ms, message@, verdicts).0,
            views(r@) == step_message(old(self)@, peer, now_ms, message@, verdicts).1,
    {
        let mut out: Vec<Action> = Vec::new();
        assert(views(out@) =~= no_actions());
        if self.subscription_manager.verify_message_sender(peer).is_err() {
            return out;
        }
        let ghost s = self@;
        self.subscription_manager.record_message(now_ms);
        assert(self@.pending == s.pending && self@.ordered == s.ordered && self@.root == s.root);
        match message {
            ObserverMessage::OrderedBlock(b) => {
                self.process_ordered_block_message(b, verdicts.proof_valid, &mut out);
            },
            ObserverMessage::CommitDecision(cd) => {
                self.process_commit_decision_message(cd, verdicts.proof_valid, &mut out);
            },
            ObserverMessage::BlockPayload(p) => {
                self.process_block_payload_message(
                    p,
                    verdicts.digests_valid,
                    verdicts.signatures_valid,
                    &mut out,
                );
            },
        }
        assert(views(out@) =~= no_actions() + views(out@));
        out
    }

    /// Leaves state sync and replays every stored block, with its decision
    /// when it has one, in store order.
    fn finish_sync(&mut self, out: &mut Vec<Action>)
        requires
            old(self).wf(),
        ensures
            final(self).wf(),
            final(self)@ == step_finish_sync(old(self)@).0,
            views(final(out)@) == views(old(out)@) + step_finish_sync(old(self)@).1,
    {
        let ghost s = self@;
        let ghost out0 = views(out@);
        self.sync = None;
        assert(self@.pending == s.pending && self@.ordered == s.ordered && self@.root == s.root);
        let n = self.ordered_block_store.len();
        let mut i: usize = 0;
        assert(s.ordered.take(0) =~= Seq::<OrderedView>::empty());
        assert(views(out@) =~= out0 + replay(s.ordered.take(0)));
        while i < n
            invariant
                self@ == (ObserverView { sync: None, ..s }),
                n == s.ordered.len(),
                i <= n,
                views(out@) == out0 + replay(s.ordered.take(i as int)),
            decreases n - i,
        {
            let b = self.ordered_block_store.block_at(i).duplicate();
            let d = self.ordered_block_store.decision_at(i);
            assert(s.ordered.take(i + 1).drop_last() =~= s.ordered.take(i as int));
            assert(s.ordered.take(i + 1).last() == s.ordered[i as int]);
            let ghost before = views(out@);
            proof { lemma_views_push(out@, Action::Finalize(b)); }
            out.push(Action::Finalize(b));
            match d {
                Some(cd) => {
                    proof { lemma_views_push(out@, Action::ForwardCommit(cd)); }
                    out.push(Action::ForwardCommit(cd));
                    assert(views(out@) =~= before + seq![
                        ActionView::Finalize(s.ordered[i as int].block),
                        ActionView::ForwardCommit(cd),
                    ]);
                },
                None => {},
            }
            i = i + 1;
        }
        assert(s.ordered.take(n as int) =~= s.ordered);
    }

    /// Handles the report that state sync reached (epoch, round). A report
    /// that does not match the root is stale and ignored.
    pub fn process_sync_notification(&mut self, epoch: u64, round: u64) -> (r: Vec<Action>)
        requires
            old(self).wf(),
            old(self)@.epoch.is_some(),
        ensures
            final(self).wf(),
            final(self)@ == step_sync_notification(old(self)@, epoch, round).0,
            views(r@) == step_sync_notification(old(self)@, epoch, round).1,
    {
        let mut out: Vec<Action> = Vec::new();
        assert(views(out@) =~= no_actions());
        if !check_root_epoch_and_round(&self.root, epoch, round) {
            return out;
        }
        let current = match self.epoch {
            Some(e) => e,
            None => 0,
        };
        if epoch > current {
            proof { lemma_views_push(out@, Action::EndEpoch); }
            out.push(Action::EndEpoch);
            assert(views(out@) =~= seq![ActionView::EndEpoch]);
            return out;
        }
        self.finish_sync(&mut out);
        assert(views(out@) =~= no_actions() + views(out@));
        out
    }

    /// Enters the first epoch after start-up.
    pub fn start_epoch(&mut self, epoch: u64, quorum_store_enabled: bool)
        requires
            old(self).wf(),
        ensures
            final(self).wf(),
            final(self)@ == (ObserverView {
                epoch: Some(epoch),
                quorum_store_enabled,
                ..old(self)@
            }),
    {
        let ghost s = self@;
        self.epoch = Some(epoch);
        self.quorum_store_enabled = quorum_store_enabled;
        assert(self@.pending == s.pending && self@.ordered == s.ordered && self@.root == s.root);
    }

    /// Enters `epoch` once state sync has crossed into it. Every buffered
    /// block's proof check is redone under the new epoch (`valid_proofs`
    /// holds the proofs that pass); the payloads of that epoch whose
    /// signatures now verify (at `verified_rounds`, in ascending order) are
    /// marked verified in turn, each unblocking the pending block it
    /// completes; then state sync ends with a replay of stored blocks.
    pub fn complete_epoch_change(
        &mut self,
        epoch: u64,
        quorum_store_enabled: bool,
        valid_proofs: &Vec<BlockInfo>,
        verified_rounds: &Vec<u64>,
    ) -> (r: Vec<Action>)
        requires
            old(self).wf(),
            forall|i: int, j: int|
                0 <= i < j < verified_rounds@.len() ==> verified_rounds@[i] < verified_rounds@[j],
        ensures
            final(self).wf(),
            final(self)@ == step_epoch_change(
                old(self)@,
                epoch,
                quorum_store_enabled,
                valid_proofs@,
                verified_rounds@,
            ).0,
            views(r@) == step_epoch_change(
                old(self)@,
                epoch,
                quorum_store_enabled,
                valid_proofs@,
                verified_rounds@,
            ).1,
    {
        let mut out: Vec<Action> = Vec::new();
        let ghost s0 = self@;
        proof { lemma_wf_recheck(s0, epoch, quorum_store_enabled, valid_proofs@); }
        self.epoch = Some(epoch);
        self.quorum_store_enabled = quorum_store_enabled;
        self.pending_block_store.recheck_proofs(valid_proofs);
        let ghost s1 = self@;
        let mut i: usize = 0;
        assert(verified_rounds@.take(0) =~= Seq::<u64>::empty());
        assert(views(out@) =~= no_actions());
        while i < verified_rounds.len()
            invariant
                self.wf(),
                i <= verified_rounds@.len(),
                (self@, views(out@)) == step_verify_rounds(s1, epoch, verified_rounds@.take(i as int)),
            decreases verified_rounds@.len() - i,
        {
            let round = verified_rounds[i];
            assert(verified_rounds@.take(i + 1).drop_last() =~= verified_rounds@.take(i as int));
            assert(verified_rounds@.take(i + 1).last() == round);
            let ghost sm = self@;
            proof {
                lemma_payload_updates_unique(sm.payloads, PayloadEntry { payload: BlockPayload { block: sm.root, digest: 0 }, verified: true }, 0, epoch, round);
            }
            self.block_payload_store.mark_verified(epoch, round);
            assert(self@.pending == sm.pending && self@.ordered == sm.ordered && self@.root == sm.root);
            let ghost before = views(out@);
            let ghost mid = self@;
            self.order_ready_pending_block(epoch, round, &mut out);
            assert(views(out@) == before + step_order_ready_pending(mid, epoch, round).1);
            i = i + 1;
        }
        assert(verified_rounds@.take(verified_rounds@.len() as int) =~= verified_rounds@);
        self.finish_sync(&mut out);
        out
    }

    /// What a commit reported by execution does: committed payloads and
    /// blocks leave the stores, and the root moves forward within its epoch.
    pub fn process_commit_callback(&mut self, ledger_info: BlockInfo)
        requires
            old(self).wf(),
        ensures
            final(self).wf(),
            final(self)@ == step_commit_callback(old(self)@, ledger_info),
    {
        let ghost s = self@;
        proof { lemma_wf_commit_callback(s, ledger_info); }
        self.block_payload_store.remove_blocks_for_commit(&ledger_info);
        self.ordered_block_store.remove_blocks_for_commit(&ledger_info);
        if ledger_info.epoch == self.root.epoch && ledger_info.round > self.root.round {
            self.root = ledger_info;
        }
        assert(self@.pending == s.pending);
        assert(self@.ordered == ordered_purge(s.ordered, ledger_info));
    }

    /// Wipes all three stores and asks for the pipeline to be reset to the root.
    fn clear_pending_block_state(&mut self, out: &mut Vec<Action>)
        requires
            old(self).wf(),
        ensures
            final(self).wf(),
            final(self)@ == (ObserverView {
                payloads: Seq::empty(),
                pending: Seq::empty(),
                ordered: Seq::empty(),
                ..old(self)@
            }),
            views(final(out)@) == views(old(out)@) + seq![ActionView::ResetPipeline(old(self)@.root)],
    {
        self.block_payload_store.clear_all_payloads();
        self.pending_block_store.clear_missing_blocks();
        self.ordered_block_store.clear_all_ordered_blocks();
        proof { lemma_views_push(out@, Action::ResetPipeline(self.root)); }
        out.push(Action::ResetPipeline(self.root));
    }

    /// The periodic check: nothing while state sync runs; otherwise the
    /// subscription's health is checked, and when a new subscription was
    /// made all buffered state is wiped and the pipeline reset.
    pub fn check_progress(&mut self, now_ms: u64, candidate: Option<u64>) -> (r: Vec<Action>)
        requires
            old(self).wf(),
        ensures
            final(self).wf(),
            final(self)@ == step_check_progress(old(self)@, now_ms, candidate).0,
            views(r@) == step_check_progress(old(self)@, now_ms, candidate).1,
    {
        let mut out: Vec<Action> = Vec::new();
        assert(views(out@) =~= no_actions());
        if self.in_state_sync_mode() {
            return out;
        }
        let ghost s = self@;
        let created = self.subscription_manager.check_and_manage_subscriptions(now_ms, candidate);
        assert(self@.pending == s.pending && self@.ordered == s.ordered && self@.root == s.root);
        if created {
            self.clear_pending_block_state(&mut out);
            assert(views(out@) =~= seq![ActionView::ResetPipeline(self@.root)]);
        }
        out
    }
}

} // verus!
