//! The per-validator consensus core: ingests accepted blocks, advances the
//! threshold clock, drives the commit rule, proposes new blocks, and emits
//! lifecycle signals.

use vstd::prelude::*;

use crate::block::{BlockRef, Slot, VerifiedBlock};
use crate::block_manager::BlockManager;
use crate::channels::{
    broadcast_channel, broadcast_send_ok, broadcast_sender_clone, broadcast_subscribe,
    watch_channel, watch_receiver_clone, watch_send, watch_send_replace,
};
use crate::commit_observer::{CommitObserver, CommittedSubDag};
use crate::committee::{selected_stake, Committee, Context, StakeAggregator};
use crate::committer::{
    commit_block_ok, committed_blocks_of, is_decision_sequence, DecidedLeader, UniversalCommitter,
};
use crate::dag_state::{
    block_in, is_last_block_up_to, lemma_block_in_valid, ref_present, valid_block, DagState,
};
use crate::error::{ConsensusError, ConsensusResult};
use crate::threshold_clock::ThresholdClock;
use crate::transaction::TransactionConsumer;

verus! {

/// Number of leader slots evaluated per round by the commit rule.
pub const DEFAULT_NUM_LEADERS_PER_ROUND: usize = 1;

/// Backlog of the block broadcast channel.
pub const BROADCAST_BACKLOG_CAPACITY: usize = 1000;

/// Senders of signals from the core.
///
/// The new-round values ever sent are tracked in a ghost history; the hub's
/// invariant is that they are strictly increasing over time.
pub struct CoreSignals {
    tx_block_broadcast: tokio::sync::broadcast::Sender<VerifiedBlock>,
    new_round_sender: tokio::sync::watch::Sender<u32>,
    leader_accepted_sender: tokio::sync::watch::Sender<(u32, Vec<Option<Slot>>)>,
    block_ready_sender: tokio::sync::watch::Sender<Option<BlockRef>>,
    last_new_round: u32,
    history: Ghost<Seq<u32>>,
    leader_history: Ghost<Seq<(u32, Seq<Option<Slot>>)>>,
    ready_history: Ghost<Seq<(BlockRef, u32)>>,
    broadcast_history: Ghost<Seq<VerifiedBlock>>,
}

impl CoreSignals {
    /// The latest new-round value sent, the initial zero if none.
    pub closed spec fn spec_last_new_round(&self) -> u32 {
        self.last_new_round
    }

    /// Every new-round value ever sent, in order.
    pub closed spec fn spec_history(&self) -> Seq<u32> {
        self.history@
    }

    /// Every leader-accepted value ever delivered, in order.
    pub closed spec fn spec_leader_history(&self) -> Seq<(u32, Seq<Option<Slot>>)> {
        self.leader_history@
    }

    /// Every block-ready reference ever published, in order, each paired with
    /// the latest new-round value at its emission.
    pub closed spec fn spec_ready_history(&self) -> Seq<(BlockRef, u32)> {
        self.ready_history@
    }

    /// Every block ever handed to the broadcast channel, in order.
    pub closed spec fn spec_broadcast_history(&self) -> Seq<VerifiedBlock> {
        self.broadcast_history@
    }

    /// New-round values are strictly increasing over time, and the mirror
    /// holds the latest.
    pub open spec fn wf(&self) -> bool {
        &&& forall|i: int, j: int|
            0 <= i < j < self.spec_history().len() ==> self.spec_history()[i]
                < self.spec_history()[j]
        &&& forall|i: int|
            0 <= i < self.spec_history().len() ==> self.spec_history()[i]
                <= self.spec_last_new_round()
        &&& self.spec_history().len() > 0 ==> self.spec_history().last()
            == self.spec_last_new_round()
        &&& self.spec_history().len() == 0 ==> self.spec_last_new_round() == 0
    }

    /// Create the sending and receiving halves of the signal hub.
    pub fn new(num_leaders_per_round: usize) -> (r: (CoreSignals, CoreSignalsReceivers))
        ensures
            r.0.wf(),
            r.0.spec_history().len() == 0,
            r.0.spec_last_new_round() == 0,
            r.0.spec_leader_history().len() == 0,
            r.0.spec_ready_history().len() == 0,
            r.0.spec_broadcast_history().len() == 0,
    {
        let (tx_block_broadcast, _rx_block_broadcast) = broadcast_channel::<VerifiedBlock>(
            BROADCAST_BACKLOG_CAPACITY,
        );
        let (block_ready_sender, block_ready_receiver) = watch_channel::<Option<BlockRef>>(None);
        let (new_round_sender, new_round_receiver) = watch_channel::<u32>(0);
        let mut initial_leaders: Vec<Option<Slot>> = Vec::new();
        let mut i: usize = 0;
        while i < num_leaders_per_round
            decreases num_leaders_per_round - i,
        {
            initial_leaders.push(None);
            i = i + 1;
        }
        let (leader_accepted_sender, leader_accepted_receiver) = watch_channel::<(
            u32,
            Vec<Option<Slot>>,
        )>((0, initial_leaders));
        let me = CoreSignals {
            tx_block_broadcast: broadcast_sender_clone(&tx_block_broadcast),
            block_ready_sender,
            new_round_sender,
            leader_accepted_sender,
            last_new_round: 0,
            history: Ghost(Seq::empty()),
            leader_history: Ghost(Seq::empty()),
            ready_history: Ghost(Seq::empty()),
            broadcast_history: Ghost(Seq::empty()),
        };
        let receivers = CoreSignalsReceivers {
            tx_block_broadcast,
            block_ready_receiver,
            new_round_receiver,
            leader_accepted_receiver,
        };
        (me, receivers)
    }

    /// Broadcast a newly produced block; reports whether any subscriber got
    /// it. A vanished subscriber is not an error. The handed value is
    /// recorded in the ghost broadcast history.
    pub fn new_block(&mut self, block: VerifiedBlock) -> (r: bool)
        ensures
            final(self).spec_broadcast_history() == old(self).spec_broadcast_history().push(block),
            final(self).spec_ready_history() == old(self).spec_ready_history(),
            final(self).spec_history() == old(self).spec_history(),
            final(self).spec_last_new_round() == old(self).spec_last_new_round(),
            final(self).spec_leader_history() == old(self).spec_leader_history(),
            final(self).wf() == old(self).wf(),
    {
        proof {
            self.broadcast_history@ = self.broadcast_history@.push(block);
        }
        broadcast_send_ok(&self.tx_block_broadcast, block)
    }

    /// Publish the reference of the most recent own proposal; the reference
    /// and the latest new-round value at this emission are recorded in the
    /// ghost ready history.
    pub fn new_block_ready(&mut self, block: BlockRef)
        ensures
            final(self).spec_ready_history() == old(self).spec_ready_history().push(
                (block, old(self).spec_last_new_round()),
            ),
            final(self).spec_broadcast_history() == old(self).spec_broadcast_history(),
            final(self).spec_history() == old(self).spec_history(),
            final(self).spec_last_new_round() == old(self).spec_last_new_round(),
            final(self).spec_leader_history() == old(self).spec_leader_history(),
            final(self).wf() == old(self).wf(),
    {
        watch_send_replace(&self.block_ready_sender, Some(block));
        proof {
            self.ready_history@ = self.ready_history@.push((block, self.last_new_round));
        }
    }

    /// Publish that the threshold clock advanced to `round_number`; values
    /// must be strictly increasing.
    pub fn new_round(&mut self, round_number: u32)
        requires
            old(self).wf(),
            round_number > old(self).spec_last_new_round(),
        ensures
            final(self).wf(),
            final(self).spec_last_new_round() == round_number,
            final(self).spec_history() == old(self).spec_history().push(round_number),
            final(self).spec_leader_history() == old(self).spec_leader_history(),
            final(self).spec_ready_history() == old(self).spec_ready_history(),
            final(self).spec_broadcast_history() == old(self).spec_broadcast_history(),
    {
        watch_send_replace(&self.new_round_sender, round_number);
        self.last_new_round = round_number;
        proof {
            self.history@ = self.history@.push(round_number);
        }
    }

    /// Publish the leaders found for `round_number`; fails with a shutdown
    /// error when no subscriber is left. Delivered values are recorded in
    /// the ghost leader history.
    pub fn leader_accepted(&mut self, round_number: u32, leaders: Vec<Option<Slot>>) -> (r:
        ConsensusResult<()>)
        ensures
            final(self).wf() == old(self).wf(),
            final(self).spec_history() == old(self).spec_history(),
            final(self).spec_last_new_round() == old(self).spec_last_new_round(),
            final(self).spec_ready_history() == old(self).spec_ready_history(),
            final(self).spec_broadcast_history() == old(self).spec_broadcast_history(),
            r is Ok || r == Err::<(), ConsensusError>(ConsensusError::Shutdown),
            r is Ok ==> final(self).spec_leader_history() == old(
                self,
            ).spec_leader_history().push((round_number, leaders@)),
            r is Err ==> final(self).spec_leader_history() == old(self).spec_leader_history(),
    {
        let ghost sent = leaders@;
        match watch_send(&self.leader_accepted_sender, (round_number, leaders)) {
            Ok(()) => {
                proof {
                    self.leader_history@ = self.leader_history@.push((round_number, sent));
                }
                Ok(())
            },
            Err(()) => Err(ConsensusError::Shutdown),
        }
    }
}

/// Receivers of signals from the core; handed out once at construction.
pub struct CoreSignalsReceivers {
    tx_block_broadcast: tokio::sync::broadcast::Sender<VerifiedBlock>,
    block_ready_receiver: tokio::sync::watch::Receiver<Option<BlockRef>>,
    new_round_receiver: tokio::sync::watch::Receiver<u32>,
    leader_accepted_receiver: tokio::sync::watch::Receiver<(u32, Vec<Option<Slot>>)>,
}

impl CoreSignalsReceivers {
    pub fn block_broadcast_receiver(&self) -> (r: tokio::sync::broadcast::Receiver<VerifiedBlock>) {
        broadcast_subscribe(&self.tx_block_broadcast)
    }

    pub fn block_ready_receiver(&self) -> (r: tokio::sync::watch::Receiver<Option<BlockRef>>) {
        watch_receiver_clone(&self.block_ready_receiver)
    }

    pub fn new_round_receiver(&self) -> (r: tokio::sync::watch::Receiver<u32>) {
        watch_receiver_clone(&self.new_round_receiver)
    }

    pub fn leader_accepted_receiver(&self) -> (r: tokio::sync::watch::Receiver<(
        u32,
        Vec<Option<Slot>>,
    )>) {
        watch_receiver_clone(&self.leader_accepted_receiver)
    }
}

/// An old watermark entry is covered by a new one.
pub open spec fn wm_entry_le(older: Option<BlockRef>, newer: Option<BlockRef>) -> bool {
    match older {
        None => true,
        Some(o) => match newer {
            Some(n) => n.round >= o.round,
            None => false,
        },
    }
}

/// Which authorities appear among `refs` at exactly `round`.
pub open spec fn ref_marks_at(refs: Seq<BlockRef>, round: u32, n: nat) -> Seq<bool> {
    Seq::new(
        n,
        |a: int|
            exists|i: int|
                0 <= i < refs.len() && (#[trigger] refs[i]).round == round && refs[i].author == a,
    )
}

/// Whether the references at `round` carry a quorum of stake.
pub open spec fn refs_have_quorum(refs: Seq<BlockRef>, round: u32, committee: Committee) -> bool {
    selected_stake(ref_marks_at(refs, round, committee.spec_size()), committee.spec_stakes())
        >= committee.spec_quorum_threshold()
}

/// Whether the watermark admits proposing `b` for authority `a`.
pub open spec fn watermark_admits(wm: Seq<Option<BlockRef>>, a: int, b: VerifiedBlock) -> bool {
    match wm[a] {
        Some(r) => r.round < b.spec_block().round,
        None => true,
    }
}

/// Whether authority `a` has a proposable candidate at exactly `round`: its
/// highest block at or below `round` sits at `round` and passes the
/// watermark.
pub open spec fn kept_candidate_at(
    blocks: Seq<VerifiedBlock>,
    wm: Seq<Option<BlockRef>>,
    a: int,
    round: u32,
) -> bool {
    exists|b: VerifiedBlock|
        #[trigger] is_last_block_up_to(blocks, a, round, b) && watermark_admits(wm, a, b)
            && b.spec_block().round == round
}

/// The authorities with a proposable candidate at exactly `round`.
pub open spec fn kept_parent_marks(
    blocks: Seq<VerifiedBlock>,
    wm: Seq<Option<BlockRef>>,
    round: u32,
    n: nat,
) -> Seq<bool> {
    Seq::new(n, |a: int| kept_candidate_at(blocks, wm, a, round))
}

/// Whether the proposable candidates at exactly `round` reach quorum; this is
/// what must hold of round `clock_round - 1` for a proposal at `clock_round`.
pub open spec fn parents_have_quorum(
    blocks: Seq<VerifiedBlock>,
    wm: Seq<Option<BlockRef>>,
    round: u32,
    committee: Committee,
) -> bool {
    selected_stake(kept_parent_marks(blocks, wm, round, committee.spec_size()),
        committee.spec_stakes()) >= committee.spec_quorum_threshold()
}

/// Every proposable candidate at or below `max_round` is stamped at or
/// before `now`.
pub open spec fn parents_timestamps_ok(
    blocks: Seq<VerifiedBlock>,
    wm: Seq<Option<BlockRef>>,
    max_round: u32,
    now: u64,
    n: nat,
) -> bool {
    forall|a: int, b: VerifiedBlock|
        0 <= a < n && #[trigger] is_last_block_up_to(blocks, a, max_round, b) && watermark_admits(
            wm,
            a,
            b,
        ) ==> b.spec_block().timestamp_ms <= now
}

/// The leader slot evaluated at position `i` of round `q`.
pub open spec fn leader_slot_of(q: u32, i: int, committee: Committee) -> Slot {
    Slot { round: q, authority: ((q + i) as int % committee.spec_size() as int) as u32 }
}

/// Whether every leader slot of round `q` has a block in the DAG. The
/// genesis round has no leaders.
pub open spec fn leaders_exist(dag: DagState, q: u32, num: nat, committee: Committee) -> bool {
    forall|i: int|
        0 <= i < (if q == 0 {
            0
        } else {
            num as int
        }) ==> dag.contains_slot(#[trigger] leader_slot_of(q, i, committee))
}

/// How one ingest call relates the post-state to the pre-state: the DAG
/// grows by exactly the batch of accepted blocks, the clock folds their
/// references, and a proposal, when one was made, is appended on top and
/// stepped into the clock.
pub open spec fn ingested(pre: Core, post: Core, acc: Seq<VerifiedBlock>) -> bool {
    let folded = crate::threshold_clock::clock_fold(
        pre.spec_clock_round(),
        pre.spec_clock_included(),
        refs_of_blocks(acc),
        pre.spec_committee(),
    );
    &&& forall|i: int|
        0 <= i < acc.len() ==> valid_block(#[trigger] acc[i], pre.spec_committee().spec_size())
    &&& post.spec_signals().spec_history() == (if folded.0 > pre.spec_clock_round() {
        pre.spec_signals().spec_history().push(folded.0)
    } else {
        pre.spec_signals().spec_history()
    })
    &&& post.spec_signals().spec_last_new_round() == (if folded.0 > pre.spec_clock_round() {
        folded.0
    } else {
        pre.spec_signals().spec_last_new_round()
    })
    &&& (post.spec_last_proposed_block() == pre.spec_last_proposed_block()
        ==> post.spec_dag().spec_blocks() == pre.spec_dag().spec_blocks() + acc && (
        post.spec_clock_round(),
        post.spec_clock_included(),
    ) == folded && post.spec_signals().spec_ready_history()
        == pre.spec_signals().spec_ready_history() && post.spec_signals().spec_broadcast_history()
        == pre.spec_signals().spec_broadcast_history())
    &&& (post.spec_last_proposed_block() != pre.spec_last_proposed_block()
        ==> post.spec_dag().spec_blocks() == pre.spec_dag().spec_blocks() + acc + seq![
        post.spec_last_proposed_block(),
    ] && post.spec_last_proposed_block().spec_block().round == folded.0 && (
        post.spec_clock_round(),
        post.spec_clock_included(),
    ) == crate::threshold_clock::clock_step(
        folded.0,
        folded.1,
        post.spec_last_proposed_block().spec_reference(),
        pre.spec_committee(),
    ) && post.spec_signals().spec_ready_history()
        == pre.spec_signals().spec_ready_history().push(
        (
            post.spec_last_proposed_block().spec_reference(),
            post.spec_signals().spec_last_new_round(),
        ),
    ) && post.spec_signals().spec_broadcast_history()
        == pre.spec_signals().spec_broadcast_history().push(post.spec_last_proposed_block()))
}

/// After folding `acc` into the clock of `pre`, a proposal is owed: the
/// folded round is proposable, its quorum-round leaders are present in the
/// grown DAG, and the parent-round candidates carry a quorum with timestamps
/// at or before `now`.
pub open spec fn proposal_due(pre: Core, acc: Seq<VerifiedBlock>, now: u64) -> bool {
    let folded = crate::threshold_clock::clock_fold(
        pre.spec_clock_round(),
        pre.spec_clock_included(),
        refs_of_blocks(acc),
        pre.spec_committee(),
    );
    let mid = pre.spec_dag().spec_blocks() + acc;
    let q = (folded.0 - 1) as u32;
    &&& folded.0 > pre.spec_last_proposed_block().spec_block().round
    &&& folded.0 < u32::MAX
    &&& leaders_exist_in(mid, q, pre.spec_num_of_leaders(), pre.spec_committee())
    &&& parents_have_quorum(mid, pre.spec_watermark(), q, pre.spec_committee())
    &&& parents_timestamps_ok(mid, pre.spec_watermark(), q, now, pre.spec_committee().spec_size())
    &&& is_last_block_up_to(mid, pre.spec_own_index() as int, q, pre.spec_last_proposed_block())
}

/// The proposer's conditions at a state: a proposable clock round below the
/// cap, the quorum-round leaders present, and parent-round candidates with a
/// quorum of stake and timestamps at or before `now`.
pub open spec fn proposer_conditions(pre: Core, now: u64) -> bool {
    let q = (pre.spec_clock_round() - 1) as u32;
    &&& pre.spec_clock_round() > pre.spec_last_proposed_block().spec_block().round
    &&& pre.spec_clock_round() < u32::MAX
    &&& leaders_exist(pre.spec_dag(), q, pre.spec_num_of_leaders(), pre.spec_committee())
    &&& parents_have_quorum(
        pre.spec_dag().spec_blocks(),
        pre.spec_watermark(),
        q,
        pre.spec_committee(),
    )
    &&& parents_timestamps_ok(
        pre.spec_dag().spec_blocks(),
        pre.spec_watermark(),
        q,
        now,
        pre.spec_committee().spec_size(),
    )
    &&& is_last_block_up_to(
        pre.spec_dag().spec_blocks(),
        pre.spec_own_index() as int,
        q,
        pre.spec_last_proposed_block(),
    )
}

/// Whether some accepted block sits at a leader slot of round `q`.
pub open spec fn some_leader_accepted(
    accepted: Seq<VerifiedBlock>,
    q: u32,
    num: nat,
    committee: Committee,
) -> bool {
    exists|i: int, l: int|
        #![trigger accepted[i], leader_slot_of(q, l, committee)]
        0 <= i < accepted.len() && 0 <= l < num && accepted[i].spec_block().round == q
            && accepted[i].spec_block().author == leader_slot_of(q, l, committee).authority
}

/// How one commit call relates the post-state and the returned sub-DAGs to
/// the decision rule's verdict sequence: the verdicts are the direct rule's
/// over the pre-state DAG, the last decided leader advances to the last
/// verdict's slot, and the sub-DAGs carry exactly the committed blocks, in
/// verdict order.
pub open spec fn commit_outcome(
    pre: Core,
    post: Core,
    subdags: Seq<CommittedSubDag>,
    verdicts: Seq<DecidedLeader>,
) -> bool {
    &&& is_decision_sequence(
        pre.spec_dag().spec_blocks(),
        pre.spec_last_decided_leader(),
        pre.spec_num_of_leaders(),
        pre.spec_committee(),
        verdicts,
    )
    &&& (verdicts.len() > 0 ==> post.spec_last_decided_leader() == verdicts.last().spec_slot())
    &&& (verdicts.len() == 0 ==> post.spec_last_decided_leader()
        == pre.spec_last_decided_leader())
    &&& subdags.len() == committed_blocks_of(verdicts).len()
    &&& forall|i: int|
        0 <= i < subdags.len() ==> (#[trigger] subdags[i]).leader == committed_blocks_of(
            verdicts,
        )[i].spec_reference()
}

/// The snapshot published with a leader-accepted signal: position `l` holds
/// the leader slot iff the DAG holds a block at it.
pub open spec fn leaders_snapshot(dag: DagState, q: u32, num: nat, committee: Committee) -> Seq<
    Option<Slot>,
> {
    Seq::new(
        num as nat,
        |l: int|
            if dag.contains_slot(leader_slot_of(q, l, committee)) {
                Some(leader_slot_of(q, l, committee))
            } else {
                None
            },
    )
}

/// The per-validator consensus core.
pub struct Core {
    context: Context,
    threshold_clock: ThresholdClock,
    transaction_consumer: TransactionConsumer,
    block_manager: BlockManager,
    committer: UniversalCommitter,
    last_proposed_block: VerifiedBlock,
    last_included_ancestors: Vec<Option<BlockRef>>,
    last_decided_leader: Slot,
    commit_observer: CommitObserver,
    signals: CoreSignals,
    block_signer: fastcrypto::ed25519::Ed25519KeyPair,
    dag_state: DagState,
    num_of_leaders: usize,
}

impl Core {
    pub closed spec fn spec_committee(&self) -> Committee {
        self.context.committee
    }

    pub closed spec fn spec_own_index(&self) -> u32 {
        self.context.own_index
    }

    pub closed spec fn spec_clock_round(&self) -> u32 {
        self.threshold_clock.spec_round()
    }

    pub closed spec fn spec_clock_included(&self) -> Seq<bool> {
        self.threshold_clock.spec_included()
    }

    pub closed spec fn spec_last_proposed_block(&self) -> VerifiedBlock {
        self.last_proposed_block
    }

    pub closed spec fn spec_last_decided_leader(&self) -> Slot {
        self.last_decided_leader
    }

    pub closed spec fn spec_watermark(&self) -> Seq<Option<BlockRef>> {
        self.last_included_ancestors@
    }

    pub closed spec fn spec_dag(&self) -> DagState {
        self.dag_state
    }

    pub closed spec fn spec_signals(&self) -> CoreSignals {
        self.signals
    }

    pub closed spec fn spec_consumer(&self) -> TransactionConsumer {
        self.transaction_consumer
    }

    pub closed spec fn spec_missing(&self) -> Seq<BlockRef> {
        self.block_manager.spec_missing()
    }

    /// The master invariant of the core.
    ///
    /// Beside the well-formedness of every component it ties together:
    /// the last proposed block is this validator's and lives in the DAG;
    /// each watermark entry is that authority's reference from a round below
    /// the last proposal; the watermark covers every ancestor of the last
    /// proposal; and the latest new-round signal never exceeds the clock.
    pub open spec fn wf(&self) -> bool {
        let committee = self.spec_committee();
        &&& self.context_wf()
        &&& self.clock_wf()
        &&& self.block_manager_wf()
        &&& self.dag_wf()
        &&& self.spec_signals().wf()
        &&& self.committer_wf()
        &&& self.spec_watermark().len() == committee.spec_size()
        &&& self.spec_last_proposed_block().wf()
        &&& self.spec_last_proposed_block().spec_block().author == self.spec_own_index()
        &&& block_in(self.spec_dag().spec_blocks(), self.spec_last_proposed_block())
        &&& forall|a: int|
            0 <= a < self.spec_watermark().len() ==> match #[trigger] self.spec_watermark()[a] {
                Some(r) => r.author == a && r.round
                    < self.spec_last_proposed_block().spec_block().round,
                None => true,
            }
        &&& forall|j: int|
            0 <= j < self.spec_last_proposed_block().spec_block().ancestors@.len()
                ==> wm_covers(
                self.spec_watermark(),
                #[trigger] self.spec_last_proposed_block().spec_block().ancestors@[j],
            )
        &&& self.spec_signals().spec_last_new_round() <= self.spec_clock_round()
        &&& 1 <= self.spec_num_of_leaders() <= u32::MAX
        &&& self.consumer_wf()
    }

    pub closed spec fn spec_num_of_leaders(&self) -> nat {
        self.num_of_leaders as nat
    }

    pub closed spec fn context_wf(&self) -> bool {
        self.context.wf()
    }

    pub closed spec fn clock_wf(&self) -> bool {
        self.threshold_clock.wf(self.context.committee)
    }

    pub closed spec fn block_manager_wf(&self) -> bool {
        self.block_manager.wf(self.context.committee)
    }

    pub closed spec fn dag_wf(&self) -> bool {
        self.dag_state.wf(self.context.committee)
    }

    pub closed spec fn consumer_wf(&self) -> bool {
        self.transaction_consumer.wf()
    }

    pub closed spec fn committer_wf(&self) -> bool {
        self.committer.wf() && self.committer.spec_num_of_leaders() == self.num_of_leaders as nat
    }

    /// The round of the last proposed block.
    pub fn last_proposed_round(&self) -> (r: u32)
        ensures
            r == self.spec_last_proposed_block().spec_block().round,
    {
        self.last_proposed_block.round()
    }

    /// The last proposed block.
    pub fn last_proposed_block(&self) -> (r: &VerifiedBlock)
        ensures
            *r == self.spec_last_proposed_block(),
    {
        &self.last_proposed_block
    }

    /// The slot of the last decided leader.
    pub fn last_decided_leader(&self) -> (r: Slot)
        ensures
            r == self.spec_last_decided_leader(),
    {
        self.last_decided_leader
    }

    /// This validator's index.
    pub fn own_index(&self) -> (r: u32)
        ensures
            r == self.spec_own_index(),
    {
        self.context.own_index
    }

    /// The committee of the epoch.
    pub fn committee(&self) -> (r: &Committee)
        ensures
            *r == self.spec_committee(),
    {
        &self.context.committee
    }

    /// The DAG state, for inspection.
    pub fn dag_state(&self) -> (r: &DagState)
        ensures
            *r == self.spec_dag(),
    {
        &self.dag_state
    }

    /// The references this core knows of but has not received.
    pub fn get_missing_blocks(&self) -> (r: Vec<BlockRef>)
        ensures
            r@ == self.spec_missing(),
    {
        self.block_manager.missing_blocks()
    }

    /// The leader slots of `round`, in commit-rule evaluation order.
    fn leaders(&self, round: u32) -> (r: Vec<Slot>)
        requires
            self.wf(),
        ensures
            r@.len() == (if round == 0 {
                0int
            } else {
                self.spec_num_of_leaders() as int
            }),
            forall|i: int|
                0 <= i < r@.len() ==> r@[i] == leader_slot_of(round, i, self.spec_committee()),
    {
        let authorities = self.committer.get_leaders(round, &self.context.committee);
        let mut out: Vec<Slot> = Vec::new();
        let mut i: usize = 0;
        let n = authorities.len();
        while i < n
            invariant
                0 <= i <= n,
                n == authorities@.len(),
                out@.len() == i,
                forall|k: int|
                    0 <= k < n ==> authorities@[k] == ((round + k) as int % self.spec_committee().spec_size() as int),
                forall|k: int|
                    0 <= k < i ==> out@[k] == leader_slot_of(round, k, self.spec_committee()),
            decreases n - i,
        {
            out.push(Slot { round, authority: authorities[i] });
            i = i + 1;
        }
        out
    }

    /// Whether all leader slots of the last quorum round have blocks in the
    /// DAG.
    fn last_quorum_leaders_exist(&self) -> (r: bool)
        requires
            self.wf(),
        ensures
            r == leaders_exist(
                self.spec_dag(),
                (if self.spec_clock_round() == 0 {
                    0u32
                } else {
                    (self.spec_clock_round() - 1) as u32
                }),
                self.spec_num_of_leaders(),
                self.spec_committee(),
            ),
    {
        let round = self.threshold_clock.get_round();
        let quorum_round: u32 = if round == 0 {
            0
        } else {
            round - 1
        };
        let leaders = self.leaders(quorum_round);
        let mut i: usize = 0;
        let n = leaders.len();
        while i < n
            invariant
                0 <= i <= n,
                n == leaders@.len(),
                self.wf(),
                quorum_round == (if self.spec_clock_round() == 0 {
                    0u32
                } else {
                    (self.spec_clock_round() - 1) as u32
                }),
                n as int == (if quorum_round == 0 {
                    0int
                } else {
                    self.spec_num_of_leaders() as int
                }),
                forall|k: int|
                    0 <= k < n ==> leaders@[k] == leader_slot_of(
                        quorum_round,
                        k,
                        self.spec_committee(),
                    ),
                forall|k: int|
                    0 <= k < i ==> self.spec_dag().contains_slot(
                        #[trigger] leader_slot_of(quorum_round, k, self.spec_committee()),
                    ),
            decreases n - i,
        {
            if !self.dag_state.contains_block_at_slot(leaders[i]) {
                proof {
                    assert(!self.spec_dag().contains_slot(leader_slot_of(
                        quorum_round,
                        i as int,
                        self.spec_committee(),
                    )));
                }
                return false;
            }
            i = i + 1;
        }
        true
    }

    /// The references of a sequence of blocks, in order.
pub open spec fn refs_of_blocks(s: Seq<VerifiedBlock>) -> Seq<BlockRef> {
    s.map_values(|b: VerifiedBlock| b.spec_reference())
}

/// Whether authority `a` has any proposable candidate at or below
/// `max_round`: its highest block there passes the watermark.
pub open spec fn candidate_admitted(
    blocks: Seq<VerifiedBlock>,
    wm: Seq<Option<BlockRef>>,
    a: int,
    max_round: u32,
) -> bool {
    exists|b: VerifiedBlock|
        #[trigger] is_last_block_up_to(blocks, a, max_round, b) && watermark_admits(wm, a, b)
}

/// Whether `x` appears among the ancestors of some kept candidate.
    fn in_union_check(cands: &Vec<VerifiedBlock>, kept: &Vec<bool>, x: &BlockRef) -> (r: bool)
        requires
            kept@.len() == cands@.len(),
        ensures
            r == in_parent_union(cands@, kept@, *x),
    {
        let mut a: usize = 0;
        let n = cands.len();
        while a < n
            invariant
                0 <= a <= n,
                n == cands@.len(),
                kept@.len() == cands@.len(),
                forall|a2: int, j2: int|
                    0 <= a2 < a && kept@[a2] && 0 <= j2 < cands@[a2].spec_block().ancestors@.len()
                        ==> (#[trigger] cands@[a2].spec_block().ancestors@[j2]) != *x,
            decreases n - a,
        {
            if kept[a] {
                let ancestors = cands[a].ancestors();
                let mut j: usize = 0;
                let m = ancestors.len();
                while j < m
                    invariant
                        0 <= j <= m,
                        0 <= a < n,
                        n == cands@.len(),
                        kept@.len() == cands@.len(),
                        kept@[a as int],
                        m == ancestors@.len(),
                        ancestors@ == cands@[a as int].spec_block().ancestors@,
                        forall|j2: int|
                            0 <= j2 < j ==> (#[trigger] ancestors@[j2]) != *x,
                    decreases m - j,
                {
                    if ancestors[j] == *x {
                        proof {
                            assert(cands@[a as int].spec_block().ancestors@[j as int] == *x);
                        }
                        return true;
                    }
                    j = j + 1;
                }
            }
            a = a + 1;
        }
        false
    }

    /// Build the ordered ancestor list for a proposal at `clock_round`, and
    /// the advanced per-authority watermark: the highest known block per
    /// authority below the clock is taken, filtered by the watermark,
    /// checked for a parent-round quorum and for timestamps not above
    /// `block_timestamp`, and compressed against the candidates' own
    /// ancestors; the result leads with the previous own proposal and holds
    /// at most one reference per authority, in author order.
    #[verifier::rlimit(100)]
    fn ancestors_to_propose(&self, clock_round: u32, block_timestamp: u64) -> (r: ConsensusResult<
        (Vec<BlockRef>, Vec<Option<BlockRef>>),
    >)
        requires
            self.wf(),
            clock_round > self.spec_last_proposed_block().spec_block().round,
        ensures
            match r {
                Ok(pair) => {
                    &&& pair.0@.len() >= 1
                    &&& pair.0@[0] == self.spec_last_proposed_block().spec_reference()
                    &&& forall|s: int, t: int|
                        0 <= s < t < pair.0@.len() ==> (#[trigger] pair.0@[s]).author != (
                        #[trigger] pair.0@[t]).author
                    &&& forall|t: int|
                        0 <= t < pair.0@.len() ==> ref_present(
                            self.spec_dag().spec_blocks(),
                            #[trigger] pair.0@[t],
                        )
                    &&& forall|t: int|
                        0 <= t < pair.0@.len() ==> (#[trigger] pair.0@[t]).round < clock_round
                    &&& forall|t: int|
                        0 <= t < pair.0@.len() ==> ((#[trigger] pair.0@[t]).author as int)
                            < self.spec_committee().spec_size()
                    &&& refs_have_quorum(pair.0@, (clock_round - 1) as u32, self.spec_committee())
                    &&& (clock_round == 1 ==> pair.0@.len() == self.spec_committee().spec_size()
                        && (forall|t: int|
                        0 <= t < pair.0@.len() ==> (#[trigger] pair.0@[t]).round == 0))
                    &&& pair.1@.len() == self.spec_committee().spec_size()
                    &&& forall|a: int|
                        0 <= a < pair.1@.len() ==> wm_entry_le(
                            self.spec_watermark()[a],
                            #[trigger] pair.1@[a],
                        )
                    &&& forall|a: int|
                        0 <= a < pair.1@.len() ==> match #[trigger] pair.1@[a] {
                            Some(x) => x.author == a && x.round < clock_round,
                            None => true,
                        }
                    &&& forall|t: int|
                        0 <= t < pair.0@.len() ==> wm_covers(pair.1@, #[trigger] pair.0@[t])
                    &&& forall|c: VerifiedBlock, j: int|
                        block_in(self.spec_dag().spec_blocks(), c) && pair.0@.skip(1).contains(
                            c.spec_reference(),
                        ) && 0 <= j < c.spec_block().ancestors@.len() ==> !pair.0@.skip(
                            1,
                        ).contains(#[trigger] c.spec_block().ancestors@[j])
                    &&& forall|j: int|
                        0 <= j < self.spec_last_proposed_block().spec_block().ancestors@.len()
                            ==> !pair.0@.contains(
                            #[trigger] self.spec_last_proposed_block().spec_block().ancestors@[j],
                        )
                    &&& pair.0@.len() <= self.spec_committee().spec_size()
                    &&& forall|t: int|
                        1 <= t < pair.0@.len() ==> match self.spec_watermark()[(
                        #[trigger] pair.0@[t]).author as int] {
                            Some(w) => pair.0@[t].round > w.round,
                            None => true,
                        }
                    &&& forall|s: int, t: int|
                        1 <= s < t < pair.0@.len() ==> (#[trigger] pair.0@[s]).author < (
                        #[trigger] pair.0@[t]).author
                    &&& forall|t: int|
                        1 <= t < pair.0@.len() ==> ref_is_last_candidate(
                            self.spec_dag().spec_blocks(),
                            (clock_round - 1) as u32,
                            #[trigger] pair.0@[t],
                        )
                    &&& forall|a: int|
                        0 <= a < self.spec_committee().spec_size() && a != self.spec_own_index()
                            && #[trigger] kept_uncompressed(
                            self.spec_dag().spec_blocks(),
                            self.spec_watermark(),
                            (clock_round - 1) as u32,
                            self.spec_committee().spec_size(),
                            a,
                        ) ==> exists|t: int|
                            1 <= t < pair.0@.len() && (#[trigger] pair.0@[t]).author == a
                    &&& forall|a: int|
                        0 <= a < pair.1@.len() ==> (candidate_admitted(
                            self.spec_dag().spec_blocks(),
                            self.spec_watermark(),
                            a,
                            (clock_round - 1) as u32,
                        ) ==> (#[trigger] pair.1@[a]) is Some && exists|b: VerifiedBlock|
                            is_last_block_up_to(
                                self.spec_dag().spec_blocks(),
                                a,
                                (clock_round - 1) as u32,
                                b,
                            ) && watermark_admits(self.spec_watermark(), a, b) && pair.1@[a]
                                == Some(b.spec_reference()))
                    &&& forall|a: int|
                        0 <= a < pair.1@.len() ==> (!candidate_admitted(
                            self.spec_dag().spec_blocks(),
                            self.spec_watermark(),
                            a,
                            (clock_round - 1) as u32,
                        ) ==> (#[trigger] pair.1@[a]) == self.spec_watermark()[a])
                },
                Err(e) => e == ConsensusError::FatalQuorumMismatch || e
                    == ConsensusError::FatalClockRegression,
            },
            !parents_have_quorum(
                self.spec_dag().spec_blocks(),
                self.spec_watermark(),
                (clock_round - 1) as u32,
                self.spec_committee(),
            ) ==> r == Err::<(Vec<BlockRef>, Vec<Option<BlockRef>>), ConsensusError>(
                ConsensusError::FatalQuorumMismatch,
            ),
            r == Err::<(Vec<BlockRef>, Vec<Option<BlockRef>>), ConsensusError>(
                ConsensusError::FatalClockRegression,
            ) ==> exists|a: int, b: VerifiedBlock|
                0 <= a < self.spec_committee().spec_size() && is_last_block_up_to(
                    self.spec_dag().spec_blocks(),
                    a,
                    (clock_round - 1) as u32,
                    b,
                ) && watermark_admits(self.spec_watermark(), a, b) && b.spec_block().timestamp_ms
                    > block_timestamp,
            (parents_have_quorum(
                self.spec_dag().spec_blocks(),
                self.spec_watermark(),
                (clock_round - 1) as u32,
                self.spec_committee(),
            ) && parents_timestamps_ok(
                self.spec_dag().spec_blocks(),
                self.spec_watermark(),
                (clock_round - 1) as u32,
                block_timestamp,
                self.spec_committee().spec_size(),
            ) && is_last_block_up_to(
                self.spec_dag().spec_blocks(),
                self.spec_own_index() as int,
                (clock_round - 1) as u32,
                self.spec_last_proposed_block(),
            )) ==> r is Ok,
    {
        let committee = &self.context.committee;
        proof {
            committee.wf_facts();
        }
        let ghost size = committee.spec_size();
        let ghost dag_blocks = self.spec_dag().spec_blocks();
        let ghost old_wm = self.spec_watermark();
        let n = committee.size();
        let prev: u32 = clock_round - 1;
        let cands = self.dag_state.get_last_block_per_authority(prev, committee);
        // Filter by the watermark and advance it over every admitted
        // candidate, compressed away or not.
        let mut kept: Vec<bool> = Vec::new();
        let mut new_wm: Vec<Option<BlockRef>> = Vec::new();
        let mut a: usize = 0;
        while a < n
            invariant
                0 <= a <= n,
                n == size,
                size == committee.spec_size(),
                self.wf(),
                committee == self.spec_committee(),
                clock_round >= 1,
                prev == (clock_round - 1) as u32,
                clock_round > self.spec_last_proposed_block().spec_block().round,
                dag_blocks == self.spec_dag().spec_blocks(),
                old_wm == self.spec_watermark(),
                old_wm.len() == size,
                cands@.len() == size,
                forall|a2: int|
                    0 <= a2 < size ==> is_last_block_up_to(
                        dag_blocks,
                        a2,
                        prev,
                        #[trigger] cands@[a2],
                    ),
                kept@.len() == a,
                new_wm@.len() == a,
                forall|a2: int|
                    0 <= a2 < a ==> kept@[a2] == watermark_admits(old_wm, a2, cands@[a2]),
                forall|a2: int|
                    0 <= a2 < a ==> #[trigger] new_wm@[a2] == (if kept@[a2] {
                        Some(cands@[a2].spec_reference())
                    } else {
                        old_wm[a2]
                    }),
                forall|a2: int|
                    0 <= a2 < a ==> wm_entry_le(old_wm[a2], #[trigger] new_wm@[a2]),
                forall|a2: int|
                    0 <= a2 < a ==> match #[trigger] new_wm@[a2] {
                        Some(x) => x.author == a2 && x.round < clock_round,
                        None => true,
                    },
            decreases n - a,
        {
            proof {
                assert(is_last_block_up_to(dag_blocks, a as int, prev, cands@[a as int]));
            }
            let admitted: bool = match &self.last_included_ancestors[a] {
                Some(w) => w.round < cands[a].round(),
                None => true,
            };
            kept.push(admitted);
            if admitted {
                new_wm.push(Some(cands[a].reference()));
            } else {
                new_wm.push(self.last_included_ancestors[a]);
            }
            proof {
                assert(watermark_admits(old_wm, a as int, cands@[a as int]) == admitted);
                if admitted {
                    assert(new_wm@[a as int] == Some(cands@[a as int].spec_reference()));
                    assert(cands@[a as int].spec_block().round <= prev);
                } else {
                    assert(new_wm@[a as int] == old_wm[a as int]);
                    if old_wm[a as int] is Some {
                        assert(old_wm[a as int].unwrap().round
                            < self.spec_last_proposed_block().spec_block().round);
                    }
                }
            }
            a = a + 1;
        }
        // Quorum guard on the admitted candidates of the parent round.
        let threshold = committee.quorum_threshold();
        let mut agg = StakeAggregator::new(committee);
        let mut q: usize = 0;
        proof {
            assert(agg.spec_included() =~= Seq::new(size, |a2: int| false));
            assert(Seq::new(size, |a2: int| false) =~= Seq::new(
                size,
                |a2: int| 0 <= a2 < 0 && kept@[a2] && cands@[a2].spec_block().round == prev,
            ));
        }
        while q < n
            invariant
                0 <= q <= n,
                n == size,
                size == committee.spec_size(),
                size <= u32::MAX,
                committee.wf(),
                threshold == committee.spec_quorum_threshold(),
                cands@.len() == size,
                kept@.len() == size,
                agg.wf(*committee),
                agg.spec_included() =~= Seq::new(
                    size,
                    |a2: int| 0 <= a2 < q && kept@[a2] && cands@[a2].spec_block().round == prev,
                ),
            decreases n - q,
        {
            let ghost pre_inc = agg.spec_included();
            let hit = kept[q] && cands[q].round() == prev;
            if hit {
                let _ = agg.add(q as u32, committee, threshold);
            }
            proof {
                let post = Seq::new(
                    size,
                    |a2: int| 0 <= a2 < q + 1 && kept@[a2] && cands@[a2].spec_block().round
                        == prev,
                );
                assert forall|a2: int| 0 <= a2 < size implies agg.spec_included()[a2] == post[
                    a2] by {
                    if a2 == q {
                        assert(post[a2] == hit);
                    } else {
                        assert(agg.spec_included()[a2] == pre_inc[a2]);
                    }
                }
                assert(agg.spec_included() =~= post);
            }
            q = q + 1;
        }
        proof {
            // The aggregated marks are exactly the proposable-parent marks.
            let exec_marks = Seq::new(
                size,
                |a2: int| 0 <= a2 < size as int && kept@[a2] && cands@[a2].spec_block().round
                    == prev,
            );
            let spec_marks = kept_parent_marks(dag_blocks, old_wm, prev, size);
            assert forall|a2: int| 0 <= a2 < size implies exec_marks[a2] == spec_marks[a2] by {
                if exec_marks[a2] {
                    assert(is_last_block_up_to(dag_blocks, a2, prev, cands@[a2]));
                    assert(kept_candidate_at(dag_blocks, old_wm, a2, prev));
                }
                if spec_marks[a2] {
                    let b = choose|b: VerifiedBlock|
                        is_last_block_up_to(dag_blocks, a2, prev, b) && watermark_admits(
                            old_wm,
                            a2,
                            b,
                        ) && b.spec_block().round == prev;
                    crate::dag_state::lemma_last_block_round_agree(
                        dag_blocks,
                        a2,
                        prev,
                        b,
                        cands@[a2],
                    );
                    assert(kept@[a2] && cands@[a2].spec_block().round == prev);
                }
            }
            assert(exec_marks =~= spec_marks);
            assert(agg.spec_included() =~= spec_marks);
        }
        if !(agg.stake(committee) >= threshold) {
            return Err(ConsensusError::FatalQuorumMismatch);
        }
        // Wall-clock guard: every admitted candidate must be stamped at or
        // before the proposal timestamp.
        let mut t: usize = 0;
        while t < n
            invariant
                0 <= t <= n,
                n == size,
                size == committee.spec_size(),
                committee == self.spec_committee(),
                clock_round >= 1,
                prev == (clock_round - 1) as u32,
                block_timestamp == block_timestamp,
                cands@.len() == size,
                kept@.len() == size,
                old_wm.len() == size,
                dag_blocks == self.spec_dag().spec_blocks(),
                old_wm == self.spec_watermark(),
                forall|a2: int|
                    0 <= a2 < size ==> is_last_block_up_to(
                        dag_blocks,
                        a2,
                        prev,
                        #[trigger] cands@[a2],
                    ),
                forall|a2: int|
                    0 <= a2 < size ==> kept@[a2] == watermark_admits(old_wm, a2, cands@[a2]),
                parents_have_quorum(dag_blocks, old_wm, prev, *committee),
                forall|a2: int|
                    0 <= a2 < t && kept@[a2] ==> (#[trigger] cands@[a2]).spec_block().timestamp_ms
                        <= block_timestamp,
            decreases n - t,
        {
            if kept[t] && cands[t].timestamp_ms() > block_timestamp {
                proof {
                    assert(is_last_block_up_to(dag_blocks, t as int, prev, cands@[t as int])
                        && watermark_admits(old_wm, t as int, cands@[t as int]) && cands@[
                        t as int].spec_block().timestamp_ms > block_timestamp);
                    assert(exists|a3: int, b: VerifiedBlock|
                        0 <= a3 < size && is_last_block_up_to(dag_blocks, a3, prev, b)
                            && watermark_admits(old_wm, a3, b) && b.spec_block().timestamp_ms
                            > block_timestamp);
                }
                return Err(ConsensusError::FatalClockRegression);
            }
            t = t + 1;
        }
        // Compression: drop candidates transitively included through another
        // candidate; the previous own proposal always leads the list.
        let own = self.context.own_index;
        let mut result: Vec<BlockRef> = Vec::new();
        result.push(self.last_proposed_block.reference());
        proof {
            assert(valid_block(self.spec_last_proposed_block(), size)) by {
                lemma_block_in_valid(dag_blocks, self.spec_last_proposed_block(), size);
            }
            assert(ref_present(dag_blocks, self.spec_last_proposed_block().spec_reference())) by {
                let w = choose|i: int|
                    0 <= i < dag_blocks.len() && dag_blocks[i]
                        == self.spec_last_proposed_block();
                assert(dag_blocks[w].spec_reference()
                    == self.spec_last_proposed_block().spec_reference());
            }
        }
        let mut a2: usize = 0;
        while a2 < n
            invariant
                0 <= a2 <= n,
                n == size,
                size == committee.spec_size(),
                self.wf(),
                committee == self.spec_committee(),
                own == self.spec_own_index(),
                clock_round >= 1,
                prev == (clock_round - 1) as u32,
                clock_round > self.spec_last_proposed_block().spec_block().round,
                dag_blocks == self.spec_dag().spec_blocks(),
                old_wm == self.spec_watermark(),
                old_wm.len() == size,
                cands@.len() == size,
                kept@.len() == size,
                forall|a3: int|
                    0 <= a3 < size ==> is_last_block_up_to(
                        dag_blocks,
                        a3,
                        prev,
                        #[trigger] cands@[a3],
                    ),
                forall|a3: int|
                    0 <= a3 < size ==> kept@[a3] == watermark_admits(old_wm, a3, cands@[a3]),
                result@.len() >= 1,
                result@[0] == self.spec_last_proposed_block().spec_reference(),
                forall|s: int|
                    1 <= s < result@.len() ==> exists|a4: int|
                        0 <= a4 < a2 && a4 != own && kept@[a4] && (#[trigger] result@[s])
                            == cands@[a4].spec_reference() && result@[s].author == a4,
                forall|s: int|
                    1 <= s < result@.len() ==> !in_parent_union(
                        cands@,
                        kept@,
                        #[trigger] result@[s],
                    ),
                forall|s: int, u: int|
                    1 <= s < u < result@.len() ==> (#[trigger] result@[s]).author < (
                    #[trigger] result@[u]).author,
                forall|s: int| 1 <= s < result@.len() ==> (#[trigger] result@[s]).author < a2,
                forall|s: int|
                    0 <= s < result@.len() ==> (#[trigger] result@[s]).round < clock_round,
                forall|s: int|
                    0 <= s < result@.len() ==> ref_present(dag_blocks, #[trigger] result@[s]),
                forall|s: int|
                    0 <= s < result@.len() ==> ((#[trigger] result@[s]).author as int) < size,
                forall|a3: int|
                    0 <= a3 < a2 && a3 != own && kept@[a3] && !in_parent_union(
                        cands@,
                        kept@,
                        (#[trigger] cands@[a3]).spec_reference(),
                    ) ==> result@.contains(cands@[a3].spec_reference()),
                result@.len() <= 1 + (if a2 as int <= own as int {
                    a2 as int
                } else {
                    a2 - 1
                }),
                clock_round == 1 ==> result@.len() == 1 + (if a2 as int <= own as int {
                    a2 as int
                } else {
                    a2 - 1
                }),
            decreases n - a2,
        {
            let ghost pre_result = result@;
            proof {
                assert(is_last_block_up_to(dag_blocks, a2 as int, prev, cands@[a2 as int]));
                if clock_round == 1 {
                    // At the genesis round the watermark is empty, the
                    // candidates are the round-zero blocks and nothing is
                    // compressed away.
                    assert(self.spec_last_proposed_block().spec_block().round == 0);
                    assert(old_wm[a2 as int] is None);
                    assert(kept@[a2 as int]);
                    assert(cands@[a2 as int].spec_block().round == 0);
                }
            }
            if kept[a2] && (a2 as u32) != own {
                let ra = cands[a2].reference();
                if !Self::in_union_check(&cands, &kept, &ra) {
                    proof {
                        assert(valid_block(cands@[a2 as int], size)) by {
                            lemma_block_in_valid(dag_blocks, cands@[a2 as int], size);
                        }
                        assert(ref_present(dag_blocks, cands@[a2 as int].spec_reference())) by {
                            let w = choose|i: int|
                                0 <= i < dag_blocks.len() && dag_blocks[i] == cands@[a2 as int];
                            assert(dag_blocks[w].spec_reference() == cands@[
                                a2 as int].spec_reference());
                        }
                    }
                    result.push(ra);
                    proof {
                        assert forall|x: BlockRef| pre_result.contains(x) implies result@.contains(
                            x,
                        ) by {
                            let w = choose|w: int|
                                0 <= w < pre_result.len() && pre_result[w] == x;
                            assert(result@[w] == x);
                        }
                        assert(result@[result@.len() - 1] == cands@[a2 as int].spec_reference());
                        assert(result@.contains(cands@[a2 as int].spec_reference()));
                        assert forall|s: int| 1 <= s < result@.len() implies exists|a4: int|
                            0 <= a4 < a2 + 1 && a4 != own && kept@[a4] && (#[trigger] result@[s])
                                == cands@[a4].spec_reference() && result@[s].author == a4 by {
                            if s < result@.len() - 1 {
                                assert(result@[s] == pre_result[s]);
                                let a4 = choose|a4: int|
                                    0 <= a4 < a2 && a4 != own && kept@[a4] && pre_result[s]
                                        == cands@[a4].spec_reference() && pre_result[s].author
                                        == a4;
                                assert(0 <= a4 < a2 + 1 && a4 != own && kept@[a4] && result@[s]
                                    == cands@[a4].spec_reference() && result@[s].author == a4);
                            } else {
                                let aw = a2 as int;
                                assert(0 <= aw < a2 + 1 && aw != own && kept@[aw] && result@[s]
                                    == cands@[aw].spec_reference() && result@[s].author == aw);
                            }
                        }
                    }
                } else {
                    proof {
                        if clock_round == 1 {
                            // A round-zero candidate has no ancestors, so the
                            // union is empty.
                            let (ua, uj) = choose|ua: int, uj: int|
                                0 <= ua < cands@.len() && kept@[ua] && 0 <= uj < cands@[
                                    ua].spec_block().ancestors@.len() && cands@[
                                    ua].spec_block().ancestors@[uj] == ra;
                            assert(valid_block(cands@[ua], size)) by {
                                lemma_block_in_valid(dag_blocks, cands@[ua], size);
                            }
                            assert(cands@[ua].spec_block().round == 0);
                            assert(false);
                        }
                    }
                }
            }
            proof {
                if result@.len() == pre_result.len() {
                    assert forall|s: int| 1 <= s < result@.len() implies exists|a4: int|
                        0 <= a4 < a2 + 1 && a4 != own && kept@[a4] && (#[trigger] result@[s])
                            == cands@[a4].spec_reference() && result@[s].author == a4 by {
                        let a4 = choose|a4: int|
                            0 <= a4 < a2 && a4 != own && kept@[a4] && result@[s] == cands@[
                                a4].spec_reference() && result@[s].author == a4;
                        assert(0 <= a4 < a2 + 1 && a4 != own && kept@[a4] && result@[s] == cands@[
                            a4].spec_reference() && result@[s].author == a4);
                    }
                }
            }
            a2 = a2 + 1;
        }
        // Final quorum guard on the proposed references of the parent round.
        let mut agg2 = StakeAggregator::new(committee);
        let mut t2: usize = 0;
        let rlen = result.len();
        proof {
            assert(agg2.spec_included() =~= ref_marks_prefix(result@, prev, size, 0));
        }
        while t2 < rlen
            invariant
                0 <= t2 <= rlen,
                rlen == result@.len(),
                size == committee.spec_size(),
                committee.wf(),
                threshold == committee.spec_quorum_threshold(),
                forall|s: int|
                    0 <= s < result@.len() ==> ((#[trigger] result@[s]).author as int) < size,
                agg2.wf(*committee),
                agg2.spec_included() =~= ref_marks_prefix(result@, prev, size, t2 as int),
            decreases rlen - t2,
        {
            let ghost pre_inc2 = agg2.spec_included();
            proof {
                lemma_ref_marks_step(result@, prev, size, t2 as int);
            }
            if result[t2].round == prev {
                let _ = agg2.add(result[t2].author, committee, threshold);
            }
            t2 = t2 + 1;
        }
        proof {
            assert(ref_marks_prefix(result@, prev, size, rlen as int) =~= ref_marks_at(
                result@,
                prev,
                size,
            ));
        }
        if !(agg2.stake(committee) >= threshold) {
            proof {
                if is_last_block_up_to(
                    dag_blocks,
                    own as int,
                    prev,
                    self.spec_last_proposed_block(),
                ) {
                    // The proposed references carry at least the stake of the
                    // admitted parent-round candidates, so this guard cannot
                    // fire: contradiction.
                    lemma_result_marks_cover(
                        dag_blocks,
                        old_wm,
                        cands@,
                        kept@,
                        result@,
                        prev,
                        own,
                        self.spec_last_proposed_block(),
                        size,
                    );
                    crate::committee::lemma_selected_stake_monotone(
                        kept_parent_marks(dag_blocks, old_wm, prev, size),
                        ref_marks_at(result@, prev, size),
                        committee.spec_stakes(),
                    );
                    assert(false);
                }
            }
            return Err(ConsensusError::FatalQuorumMismatch);
        }
        proof {
            lemma_result_compression(
                dag_blocks,
                old_wm,
                cands@,
                kept@,
                result@,
                own,
                self.spec_last_proposed_block(),
                size,
            );
            // Distinct authors: the leading own reference against the
            // author-ordered rest.
            assert forall|s: int, u: int|
                0 <= s < u < result@.len() implies (#[trigger] result@[s]).author != (
            #[trigger] result@[u]).author by {
                if s == 0 {
                    let a4 = choose|a4: int|
                        0 <= a4 < size && a4 != own && kept@[a4] && result@[u] == cands@[
                            a4].spec_reference() && result@[u].author == a4;
                    assert(result@[0].author == own);
                } else {
                    assert(result@[s].author < result@[u].author);
                }
            }
            // The advanced watermark covers every proposed reference.
            assert(kept@[own as int]) by {
                assert(is_last_block_up_to(dag_blocks, own as int, prev, cands@[own as int]));
                assert(block_in(dag_blocks, self.spec_last_proposed_block()));
                assert(self.spec_last_proposed_block().spec_block().round
                    <= cands@[own as int].spec_block().round) by {
                    let w = choose|i: int|
                        0 <= i < dag_blocks.len() && dag_blocks[i]
                            == self.spec_last_proposed_block();
                    assert(dag_blocks[w].spec_block().author == own
                        && dag_blocks[w].spec_block().round <= prev);
                }
                if old_wm[own as int] is Some {
                    assert(old_wm[own as int].unwrap().round
                        < self.spec_last_proposed_block().spec_block().round);
                }
            }
            // The admitted flags coincide with the abstract admission
            // predicate, which pins the advanced watermark.
            assert forall|a3: int| 0 <= a3 < size implies kept@[a3] == candidate_admitted(
                dag_blocks,
                old_wm,
                a3,
                prev,
            ) by {
                if kept@[a3] {
                    assert(is_last_block_up_to(dag_blocks, a3, prev, cands@[a3])
                        && watermark_admits(old_wm, a3, cands@[a3]));
                }
                if candidate_admitted(dag_blocks, old_wm, a3, prev) {
                    let b = choose|b: VerifiedBlock|
                        is_last_block_up_to(dag_blocks, a3, prev, b) && watermark_admits(
                            old_wm,
                            a3,
                            b,
                        );
                    crate::dag_state::lemma_last_block_round_agree(
                        dag_blocks,
                        a3,
                        prev,
                        b,
                        cands@[a3],
                    );
                }
            }
            // A kept reference strictly exceeds the old watermark entry of
            // its author.
            assert forall|t: int| 1 <= t < result@.len() implies match old_wm[(
            #[trigger] result@[t]).author as int] {
                Some(w) => result@[t].round > w.round,
                None => true,
            } by {
                let a4 = choose|a4: int|
                    0 <= a4 < size && a4 != own && kept@[a4] && result@[t] == cands@[
                        a4].spec_reference() && result@[t].author == a4;
                assert(watermark_admits(old_wm, a4, cands@[a4]));
            }
            assert forall|s: int| 0 <= s < result@.len() implies wm_covers(
                new_wm@,
                #[trigger] result@[s],
            ) by {
                if s == 0 {
                    assert(new_wm@[own as int] == Some(cands@[own as int].spec_reference()));
                    assert(cands@[own as int].spec_block().round
                        >= self.spec_last_proposed_block().spec_block().round) by {
                        let w = choose|i: int|
                            0 <= i < dag_blocks.len() && dag_blocks[i]
                                == self.spec_last_proposed_block();
                        assert(dag_blocks[w].spec_block().author == own
                            && dag_blocks[w].spec_block().round <= prev);
                    }
                } else {
                    let a4 = choose|a4: int|
                        0 <= a4 < size && a4 != own && kept@[a4] && result@[s] == cands@[
                            a4].spec_reference() && result@[s].author == a4;
                    assert(new_wm@[a4] == Some(cands@[a4].spec_reference()));
                }
            }
            // Each proposed tail reference is its author's highest block of
            // the parent range.
            assert forall|t: int| 1 <= t < result@.len() implies ref_is_last_candidate(
                dag_blocks,
                prev,
                #[trigger] result@[t],
            ) by {
                let a4 = choose|a4: int|
                    0 <= a4 < size && a4 != own && kept@[a4] && result@[t] == cands@[
                        a4].spec_reference() && result@[t].author == a4;
                assert(is_last_block_up_to(dag_blocks, a4, prev, cands@[a4]) && cands@[
                    a4].spec_reference() == result@[t]);
            }
            // Completeness: an admitted candidate that no admitted candidate
            // references is proposed.
            assert forall|a3: int|
                0 <= a3 < size && a3 != own && #[trigger] kept_uncompressed(
                    dag_blocks,
                    old_wm,
                    prev,
                    size,
                    a3,
                ) implies exists|t: int|
                1 <= t < result@.len() && (#[trigger] result@[t]).author == a3 by {
                assert(kept@[a3]);
                assert(is_last_block_up_to(dag_blocks, a3, prev, cands@[a3]));
                assert(!ancestor_of_admitted(dag_blocks, old_wm, prev, size,
                    cands@[a3].spec_reference()));
                assert(!in_parent_union(cands@, kept@, cands@[a3].spec_reference())) by {
                    if in_parent_union(cands@, kept@, cands@[a3].spec_reference()) {
                        let (ua, uj) = choose|ua: int, uj: int|
                            0 <= ua < cands@.len() && kept@[ua] && 0 <= uj < cands@[
                                ua].spec_block().ancestors@.len() && (
                            #[trigger] cands@[ua].spec_block().ancestors@[uj]) == cands@[
                                a3].spec_reference();
                        assert(is_last_block_up_to(dag_blocks, ua, prev, cands@[ua])
                            && watermark_admits(old_wm, ua, cands@[ua]));
                        assert(ancestor_of_admitted(dag_blocks, old_wm, prev, size,
                            cands@[a3].spec_reference()));
                    }
                }
                assert(result@.contains(cands@[a3].spec_reference()));
                let w = choose|w: int|
                    0 <= w < result@.len() && result@[w] == cands@[a3].spec_reference();
                assert(valid_block(cands@[a3], size)) by {
                    lemma_block_in_valid(dag_blocks, cands@[a3], size);
                }
                assert(result@[w].author == a3);
                assert(w >= 1) by {
                    if w == 0 {
                        assert(result@[0].author == own);
                    }
                }
            }
        }
        Ok((result, new_wm))
    }

    /// Construct the core from its collaborators and recover its clock from
    /// the last quorum in the DAG state.
    pub fn new(
        context: Context,
        transaction_consumer: TransactionConsumer,
        block_manager: BlockManager,
        commit_observer: CommitObserver,
        signals: CoreSignals,
        block_signer: fastcrypto::ed25519::Ed25519KeyPair,
        dag_state: DagState,
        num_of_leaders: usize,
    ) -> (r: Core)
        requires
            context.wf(),
            dag_state.wf(context.committee),
            block_manager.wf(context.committee),
            transaction_consumer.wf(),
            signals.wf(),
            signals.spec_history().len() == 0,
            1 <= num_of_leaders <= u32::MAX,
        ensures
            r.wf(),
            r.spec_committee() == context.committee,
            r.spec_own_index() == context.own_index,
            r.spec_dag() == dag_state,
            r.spec_consumer() == transaction_consumer,
            // The last decided leader is read back from the last commit.
            r.spec_last_decided_leader() == (match dag_state.spec_last_commit() {
                Some(c) => Slot { round: c.spec_leader().round, authority: c.spec_leader().author },
                None => Slot { round: 0, authority: 0 },
            }),
            // The last proposed block is this authority's highest block.
            is_last_block_up_to(
                dag_state.spec_blocks(),
                context.own_index as int,
                u32::MAX,
                r.spec_last_proposed_block(),
            ),
            // The watermark covers exactly the last proposal's ancestors.
            forall|j: int|
                0 <= j < r.spec_last_proposed_block().spec_block().ancestors@.len() ==> wm_covers(
                    r.spec_watermark(),
                    #[trigger] r.spec_last_proposed_block().spec_block().ancestors@[j],
                ),
            forall|a: int|
                0 <= a < r.spec_watermark().len() ==> match #[trigger] r.spec_watermark()[a] {
                    Some(x) => r.spec_last_proposed_block().spec_block().ancestors@.contains(x),
                    None => true,
                },
            // The clock is rebuilt by folding the most recent quorum's
            // references from round zero, and the new-round signal holds the
            // recovered round.
            exists|q: u32, lqs: Seq<VerifiedBlock>|
                #![auto]
                crate::dag_state::is_last_quorum(dag_state.spec_blocks(), context.committee, q, lqs)
                    && (r.spec_clock_round(), r.spec_clock_included())
                    == crate::threshold_clock::clock_fold(
                    0,
                    Seq::new(context.committee.spec_size(), |x: int| false),
                    refs_of_blocks(lqs),
                    context.committee,
                ),
            r.spec_signals().spec_history() == (if r.spec_clock_round() > 0 {
                seq![r.spec_clock_round()]
            } else {
                Seq::<u32>::empty()
            }),
    {
        let last_decided_leader = dag_state.last_commit_leader();
        let committer = UniversalCommitter::new(num_of_leaders);
        let last_proposed_block = dag_state.get_last_block_for_authority(
            context.own_index,
            &context.committee,
        );
        // Seed the watermark from the last proposed block's ancestors,
        // keeping the highest round per authority.
        let n = context.committee.size();
        let mut last_included_ancestors: Vec<Option<BlockRef>> = Vec::new();
        let mut a: usize = 0;
        while a < n
            invariant
                0 <= a <= n,
                last_included_ancestors@.len() == a,
                forall|k: int| 0 <= k < a ==> (#[trigger] last_included_ancestors@[k]) is None,
            decreases n - a,
        {
            last_included_ancestors.push(None);
            a = a + 1;
        }
        proof {
            crate::dag_state::lemma_block_in_valid(
                dag_state.spec_blocks(),
                last_proposed_block,
                context.committee.spec_size(),
            );
        }
        let ancestors = last_proposed_block.ancestors();
        let mut j: usize = 0;
        let m = ancestors.len();
        while j < m
            invariant
                0 <= j <= m,
                m == ancestors@.len(),
                ancestors@ == last_proposed_block.spec_block().ancestors@,
                valid_block(last_proposed_block, context.committee.spec_size()),
                last_included_ancestors@.len() == context.committee.spec_size(),
                forall|k: int|
                    0 <= k < last_included_ancestors@.len() ==> match #[trigger] last_included_ancestors@[k] {
                        Some(x) => x.author == k && x.round
                            < last_proposed_block.spec_block().round,
                        None => true,
                    },
                forall|k: int|
                    0 <= k < last_included_ancestors@.len() ==> match #[trigger] last_included_ancestors@[k] {
                        Some(x) => ancestors@.contains(x),
                        None => true,
                    },
                forall|k: int|
                    0 <= k < j ==> wm_covers(last_included_ancestors@, #[trigger] ancestors@[k]),
            decreases m - j,
        {
            let anc = ancestors[j];
            let slot = anc.author as usize;
            let replace: bool = match &last_included_ancestors[slot] {
                Some(existing) => existing.round <= anc.round,
                None => true,
            };
            let ghost pre_wm = last_included_ancestors@;
            if replace {
                last_included_ancestors.set(slot, Some(anc));
                proof {
                    assert(ancestors@[j as int] == anc);
                    assert(ancestors@.contains(anc));
                }
            }
            proof {
                assert forall|k: int|
                    0 <= k < j + 1 implies wm_covers(
                    last_included_ancestors@,
                    #[trigger] ancestors@[k],
                ) by {
                    if k < j {
                        assert(wm_covers(pre_wm, ancestors@[k]));
                        if replace && ancestors@[k].author == anc.author {
                            assert(pre_wm[anc.author as int] is Some ==> pre_wm[
                                anc.author as int].unwrap().round <= anc.round);
                        }
                    }
                }
            }
            j = j + 1;
        }
        let threshold_clock = ThresholdClock::new(0, &context.committee);
        let mut core = Core {
            context,
            threshold_clock,
            transaction_consumer,
            block_manager,
            committer,
            last_proposed_block,
            last_included_ancestors,
            last_decided_leader,
            commit_observer,
            signals,
            block_signer,
            dag_state,
            num_of_leaders,
        };
        core.recover();
        proof {
            if core.spec_clock_round() > 0 {
                assert(core.spec_signals().spec_history() =~= seq![core.spec_clock_round()]);
            }
        }
        core
    }

    /// Recover the threshold clock from the most recent quorum of blocks.
    fn recover(&mut self)
        requires
            old(self).wf(),
        ensures
            final(self).wf(),
            final(self).spec_committee() == old(self).spec_committee(),
            final(self).spec_own_index() == old(self).spec_own_index(),
            final(self).spec_last_proposed_block() == old(self).spec_last_proposed_block(),
            final(self).spec_watermark() == old(self).spec_watermark(),
            final(self).spec_dag() == old(self).spec_dag(),
            final(self).spec_last_decided_leader() == old(self).spec_last_decided_leader(),
            final(self).spec_missing() == old(self).spec_missing(),
            final(self).spec_consumer() == old(self).spec_consumer(),
            final(self).spec_clock_round() >= old(self).spec_clock_round(),
            // The clock is the fold of the references of the most recent
            // quorum of blocks.
            exists|q: u32, lqs: Seq<VerifiedBlock>|
                #![auto]
                crate::dag_state::is_last_quorum(
                    old(self).spec_dag().spec_blocks(),
                    old(self).spec_committee(),
                    q,
                    lqs,
                ) && (final(self).spec_clock_round(), final(self).spec_clock_included())
                    == crate::threshold_clock::clock_fold(
                    old(self).spec_clock_round(),
                    old(self).spec_clock_included(),
                    refs_of_blocks(lqs),
                    old(self).spec_committee(),
                ),
            final(self).spec_signals().spec_history() == (if final(self).spec_clock_round() > old(
                self,
            ).spec_clock_round() {
                old(self).spec_signals().spec_history().push(final(self).spec_clock_round())
            } else {
                old(self).spec_signals().spec_history()
            }),
    {
        let blocks = self.dag_state.last_quorum(&self.context.committee);
        match self.add_accepted_blocks(&blocks) {
            Ok(()) => {
                proof {
                    let q = choose|q: u32|
                        crate::dag_state::is_last_quorum(
                            old(self).spec_dag().spec_blocks(),
                            old(self).spec_committee(),
                            q,
                            blocks@,
                        );
                }
            },
            Err(_) => {
                proof {
                    assert(false);
                }
            },
        }
    }

    /// Feed newly accepted blocks into the threshold clock, and signal a new
    /// round when it advanced.
    fn add_accepted_blocks(&mut self, accepted: &Vec<VerifiedBlock>) -> (r: ConsensusResult<()>)
        requires
            old(self).wf(),
            forall|i: int|
                0 <= i < accepted@.len() ==> valid_block(
                    #[trigger] accepted@[i],
                    old(self).spec_committee().spec_size(),
                ),
        ensures
            final(self).wf(),
            r is Ok,
            final(self).spec_committee() == old(self).spec_committee(),
            final(self).spec_own_index() == old(self).spec_own_index(),
            final(self).spec_clock_round() >= old(self).spec_clock_round(),
            final(self).spec_last_proposed_block() == old(self).spec_last_proposed_block(),
            final(self).spec_watermark() == old(self).spec_watermark(),
            final(self).spec_dag() == old(self).spec_dag(),
            final(self).spec_last_decided_leader() == old(self).spec_last_decided_leader(),
            final(self).spec_missing() == old(self).spec_missing(),
            final(self).spec_consumer() == old(self).spec_consumer(),
            final(self).spec_num_of_leaders() == old(self).spec_num_of_leaders(),
            final(self).spec_signals().spec_leader_history() == old(
                self,
            ).spec_signals().spec_leader_history(),
            // The clock folds exactly the accepted references, and the
            // new-round history gains exactly the new round iff it advanced.
            (final(self).spec_clock_round(), final(self).spec_clock_included())
                == crate::threshold_clock::clock_fold(
                old(self).spec_clock_round(),
                old(self).spec_clock_included(),
                refs_of_blocks(accepted@),
                old(self).spec_committee(),
            ),
            final(self).spec_signals().spec_history() == (if final(self).spec_clock_round() > old(
                self,
            ).spec_clock_round() {
                old(self).spec_signals().spec_history().push(final(self).spec_clock_round())
            } else {
                old(self).spec_signals().spec_history()
            }),
            final(self).spec_signals().spec_last_new_round() == (if final(self).spec_clock_round()
                > old(self).spec_clock_round() {
                final(self).spec_clock_round()
            } else {
                old(self).spec_signals().spec_last_new_round()
            }),
            final(self).spec_signals().spec_ready_history() == old(
                self,
            ).spec_signals().spec_ready_history(),
            final(self).spec_signals().spec_broadcast_history() == old(
                self,
            ).spec_signals().spec_broadcast_history(),
            old(self).spec_signals().spec_history().is_prefix_of(
                final(self).spec_signals().spec_history(),
            ),
    {
        let mut refs: Vec<BlockRef> = Vec::new();
        let mut i: usize = 0;
        let n = accepted.len();
        while i < n
            invariant
                0 <= i <= n,
                n == accepted@.len(),
                self.wf(),
                *self == *old(self),
                forall|k: int|
                    0 <= k < accepted@.len() ==> valid_block(
                        #[trigger] accepted@[k],
                        self.spec_committee().spec_size(),
                    ),
                refs@.len() == i,
                forall|k: int|
                    0 <= k < i ==> (#[trigger] refs@[k]) == accepted@[k].spec_reference(),
                forall|k: int| 0 <= k < i ==> (#[trigger] refs@[k]).round < u32::MAX,
                forall|k: int|
                    0 <= k < i ==> ((#[trigger] refs@[k]).author as nat)
                        < self.spec_committee().spec_size(),
            decreases n - i,
        {
            proof {
                assert(valid_block(accepted@[i as int], self.spec_committee().spec_size()));
            }
            refs.push(accepted[i].reference());
            i = i + 1;
        }
        proof {
            assert(refs@ =~= refs_of_blocks(accepted@));
        }
        let advanced = self.threshold_clock.add_blocks(&refs, &self.context.committee);
        if let Some(new_round) = advanced {
            self.signals.new_round(new_round);
        }
        Ok(())
    }

    /// Run the commit rule from the last decided leader and hand the
    /// committed sub-DAGs to the observer. The last decided leader advances
    /// monotonically.
    pub fn try_commit(&mut self) -> (r: ConsensusResult<Vec<CommittedSubDag>>)
        requires
            old(self).wf(),
        ensures
            final(self).wf(),
            final(self).spec_last_decided_leader().round >= old(
                self,
            ).spec_last_decided_leader().round,
            final(self).spec_committee() == old(self).spec_committee(),
            final(self).spec_own_index() == old(self).spec_own_index(),
            final(self).spec_clock_round() == old(self).spec_clock_round(),
            final(self).spec_clock_included() == old(self).spec_clock_included(),
            final(self).spec_last_proposed_block() == old(self).spec_last_proposed_block(),
            final(self).spec_watermark() == old(self).spec_watermark(),
            final(self).spec_dag().spec_blocks() == old(self).spec_dag().spec_blocks(),
            final(self).spec_num_of_leaders() == old(self).spec_num_of_leaders(),
            final(self).spec_signals() == old(self).spec_signals(),
            final(self).spec_missing() == old(self).spec_missing(),
            final(self).spec_consumer() == old(self).spec_consumer(),
            match r {
                Ok(subdags) => {
                    &&& final(self).spec_dag().spec_last_commit_index() == old(
                        self,
                    ).spec_dag().spec_last_commit_index() + subdags@.len()
                    &&& forall|i: int|
                        0 <= i < subdags@.len() ==> (#[trigger] subdags@[i]).commit_index == old(
                            self,
                        ).spec_dag().spec_last_commit_index() + i + 1
                    &&& final(self).spec_dag().spec_store().spec_commits().len() == old(
                        self,
                    ).spec_dag().spec_store().spec_commits().len() + subdags@.len()
                    &&& forall|i: int|
                        0 <= i < old(self).spec_dag().spec_store().spec_commits().len()
                            ==> (#[trigger] final(self).spec_dag().spec_store().spec_commits()[i])
                            == old(self).spec_dag().spec_store().spec_commits()[i]
                    &&& forall|i: int|
                        0 <= i < subdags@.len()
                            ==> (#[trigger] final(self).spec_dag().spec_store().spec_commits()[old(
                            self,
                        ).spec_dag().spec_store().spec_commits().len() + i]).spec_index() == old(
                            self,
                        ).spec_dag().spec_last_commit_index() + i + 1
                    &&& forall|i: int|
                        0 <= i < subdags@.len()
                            ==> (#[trigger] final(self).spec_dag().spec_store().spec_commits()[old(
                            self,
                        ).spec_dag().spec_store().spec_commits().len() + i]).spec_leader()
                            == subdags@[i].leader
                    &&& forall|i: int|
                        0 <= i < subdags@.len() ==> final(self).spec_last_decided_leader().round
                            >= (#[trigger] subdags@[i]).leader.round
                },
                Err(e) => e == ConsensusError::FatalCommitIndexOverflow,
            },
            // The outcome follows the decision rule over the DAG at entry.
            r matches Ok(subdags) ==> exists|verdicts: Seq<DecidedLeader>|
                commit_outcome(*old(self), *final(self), subdags@, verdicts),
    {
        let verdicts = self.committer.try_commit(
            self.last_decided_leader,
            &self.dag_state,
            &self.context.committee,
        );
        if verdicts.len() > 0 {
            let last = verdicts[verdicts.len() - 1].get_decided_slot();
            proof {
                assert(verdicts@[verdicts@.len() - 1].spec_slot().round
                    > self.spec_last_decided_leader().round);
            }
            self.last_decided_leader = last;
        }
        let mut committed: Vec<VerifiedBlock> = Vec::new();
        let mut i: usize = 0;
        let n = verdicts.len();
        proof {
            assert(verdicts@.take(0) =~= Seq::<DecidedLeader>::empty());
            assert(committed@ =~= committed_blocks_of(verdicts@.take(0)));
        }
        while i < n
            invariant
                0 <= i <= n,
                n == verdicts@.len(),
                committed@ == committed_blocks_of(verdicts@.take(i as int)),
                self.wf(),
                forall|k: int|
                    0 <= k < n ==> commit_block_ok(
                        #[trigger] verdicts@[k],
                        self.spec_dag().spec_blocks(),
                    ),
                forall|s: int, t: int|
                    0 <= s < t < n ==> (#[trigger] verdicts@[s]).spec_slot().round <= (
                    #[trigger] verdicts@[t]).spec_slot().round,
                n > 0 ==> self.spec_last_decided_leader() == verdicts@[n - 1].spec_slot(),
                forall|k: int|
                    0 <= k < committed@.len() ==> block_in(
                        self.spec_dag().spec_blocks(),
                        #[trigger] committed@[k],
                    ),
                forall|k: int|
                    0 <= k < committed@.len() ==> (#[trigger] committed@[k]).spec_block().round
                        <= self.spec_last_decided_leader().round,
            decreases n - i,
        {
            proof {
                assert(verdicts@.take(i + 1).drop_last() =~= verdicts@.take(i as int));
                assert(verdicts@.take(i + 1).last() == verdicts@[i as int]);
            }
            match &verdicts[i] {
                DecidedLeader::Commit(b) => {
                    proof {
                        assert(commit_block_ok(verdicts@[i as int], self.spec_dag().spec_blocks()));
                        if i < n - 1 {
                            assert(verdicts@[i as int].spec_slot().round <= verdicts@[
                                n - 1].spec_slot().round);
                        }
                        assert(verdicts@[i as int].spec_slot().round == b.spec_block().round);
                    }
                    committed.push(b.clone());
                },
                DecidedLeader::Skip(_) => {},
            }
            i = i + 1;
        }
        proof {
            assert(verdicts@.take(n as int) =~= verdicts@);
        }
        let ghost committed_view = committed@;
        let subdags = match self.commit_observer.handle_commit(
            committed,
            &mut self.dag_state,
            &self.context.committee,
        ) {
            Ok(s) => s,
            Err(e) => {
                return Err(e);
            },
        };
        proof {
            assert forall|k: int|
                0 <= k < subdags@.len() implies self.spec_last_decided_leader().round >= (
            #[trigger] subdags@[k]).leader.round by {
                assert(subdags@[k].leader == committed_view[k].spec_reference());
                assert(committed_view[k].spec_block().round
                    <= self.spec_last_decided_leader().round);
            }
            assert(commit_outcome(*old(self), *self, subdags@, verdicts@));
        }
        Ok(subdags)
    }

    /// Attempt to propose a block for the current clock round; returns none
    /// when a block for that round or a later one was already proposed, or
    /// when the last quorum round's leaders are awaited.
    ///
    /// A produced block carries this round, this validator as author, the
    /// previous own proposal as first ancestor, at most one reference per
    /// authority, and a quorum of parent-round references.
    #[verifier::rlimit(100)]
    pub fn try_new_block(&mut self, ignore_leaders_check: bool, now: u64) -> (r: ConsensusResult<
        Option<VerifiedBlock>,
    >)
        requires
            old(self).wf(),
        ensures
            final(self).wf(),
            final(self).spec_committee() == old(self).spec_committee(),
            final(self).spec_own_index() == old(self).spec_own_index(),
            final(self).spec_last_decided_leader() == old(self).spec_last_decided_leader(),
            final(self).spec_missing() == old(self).spec_missing(),
            final(self).spec_signals().spec_history() == old(self).spec_signals().spec_history(),
            final(self).spec_signals().spec_last_new_round() == old(
                self,
            ).spec_signals().spec_last_new_round(),
            final(self).spec_signals().spec_leader_history() == old(
                self,
            ).spec_signals().spec_leader_history(),
            final(self).spec_signals().spec_broadcast_history() == old(
                self,
            ).spec_signals().spec_broadcast_history(),
            // The block-ready signal fires exactly on a proposal, with the
            // proposal's reference.
            final(self).spec_signals().spec_ready_history() == (match r {
                Ok(Some(b)) => old(self).spec_signals().spec_ready_history().push(
                    (b.spec_reference(), old(self).spec_signals().spec_last_new_round()),
                ),
                _ => old(self).spec_signals().spec_ready_history(),
            }),
            match r {
                Ok(Some(b)) => {
                    &&& b.wf()
                    &&& b.spec_block().author == old(self).spec_own_index()
                    &&& b.spec_block().round == old(self).spec_clock_round()
                    &&& b.spec_block().round > old(
                        self,
                    ).spec_last_proposed_block().spec_block().round
                    &&& b.spec_block().timestamp_ms == now
                    &&& b.spec_block().epoch == old(self).spec_committee().spec_epoch()
                    &&& final(self).spec_last_proposed_block() == b
                    &&& final(self).spec_dag().spec_blocks() == old(
                        self,
                    ).spec_dag().spec_blocks().push(b)
                    &&& (final(self).spec_clock_round(), final(self).spec_clock_included())
                        == crate::threshold_clock::clock_step(
                        old(self).spec_clock_round(),
                        old(self).spec_clock_included(),
                        b.spec_reference(),
                        old(self).spec_committee(),
                    )
                    &&& b.spec_block().ancestors@.len() >= 1
                    &&& b.spec_block().ancestors@.len() <= old(self).spec_committee().spec_size()
                    &&& b.spec_block().ancestors@[0] == old(
                        self,
                    ).spec_last_proposed_block().spec_reference()
                    &&& forall|s: int, t: int|
                        0 <= s < t < b.spec_block().ancestors@.len() ==> (
                        #[trigger] b.spec_block().ancestors@[s]).author != (
                        #[trigger] b.spec_block().ancestors@[t]).author
                    &&& forall|t: int|
                        0 <= t < b.spec_block().ancestors@.len() ==> ref_present(
                            old(self).spec_dag().spec_blocks(),
                            #[trigger] b.spec_block().ancestors@[t],
                        )
                    &&& refs_have_quorum(
                        b.spec_block().ancestors@,
                        (b.spec_block().round - 1) as u32,
                        old(self).spec_committee(),
                    )
                    &&& (old(self).spec_clock_round() == 1 ==> b.spec_block().ancestors@.len()
                        == old(self).spec_committee().spec_size() && (forall|t: int|
                        0 <= t < b.spec_block().ancestors@.len() ==> (
                        #[trigger] b.spec_block().ancestors@[t]).round == 0))
                    &&& forall|t: int|
                        1 <= t < b.spec_block().ancestors@.len() ==> match old(
                            self,
                        ).spec_watermark()[(#[trigger] b.spec_block().ancestors@[t]).author as int] {
                            Some(w) => b.spec_block().ancestors@[t].round > w.round,
                            None => true,
                        }
                    &&& forall|s: int, t: int|
                        1 <= s < t < b.spec_block().ancestors@.len() ==> (
                        #[trigger] b.spec_block().ancestors@[s]).author < (
                        #[trigger] b.spec_block().ancestors@[t]).author
                    &&& forall|t: int|
                        1 <= t < b.spec_block().ancestors@.len() ==> ref_is_last_candidate(
                            old(self).spec_dag().spec_blocks(),
                            (b.spec_block().round - 1) as u32,
                            #[trigger] b.spec_block().ancestors@[t],
                        )
                    &&& forall|a: int|
                        0 <= a < old(self).spec_committee().spec_size() && a != old(
                            self,
                        ).spec_own_index() && #[trigger] kept_uncompressed(
                            old(self).spec_dag().spec_blocks(),
                            old(self).spec_watermark(),
                            (b.spec_block().round - 1) as u32,
                            old(self).spec_committee().spec_size(),
                            a,
                        ) ==> exists|t: int|
                            1 <= t < b.spec_block().ancestors@.len() && (
                            #[trigger] b.spec_block().ancestors@[t]).author == a
                    &&& forall|c: VerifiedBlock, j: int|
                        block_in(old(self).spec_dag().spec_blocks(), c)
                            && b.spec_block().ancestors@.skip(1).contains(c.spec_reference()) && 0
                            <= j < c.spec_block().ancestors@.len()
                            ==> !b.spec_block().ancestors@.skip(1).contains(
                            #[trigger] c.spec_block().ancestors@[j],
                        )
                    &&& forall|j: int|
                        0 <= j < old(
                            self,
                        ).spec_last_proposed_block().spec_block().ancestors@.len()
                            ==> !b.spec_block().ancestors@.contains(
                            #[trigger] old(
                                self,
                            ).spec_last_proposed_block().spec_block().ancestors@[j],
                        )
                    &&& exists|k: int|
                        #![auto]
                        0 <= k <= old(self).spec_consumer().spec_pending().len()
                            && b.spec_block().spec_tx_views() == old(
                            self,
                        ).spec_consumer().spec_pending().take(k) && final(self).spec_consumer().spec_pending() == old(
                            self,
                        ).spec_consumer().spec_pending().skip(k) && crate::transaction::sum_lens(
                            old(self).spec_consumer().spec_pending().take(k),
                        ) <= old(self).spec_consumer().spec_max_bytes() && (k < old(
                            self,
                        ).spec_consumer().spec_pending().len()
                            ==> crate::transaction::sum_lens(
                            old(self).spec_consumer().spec_pending().take(k),
                        ) + old(self).spec_consumer().spec_pending()[k].len() > old(
                            self,
                        ).spec_consumer().spec_max_bytes())
                    &&& forall|a: int|
                        0 <= a < final(self).spec_watermark().len() ==> wm_entry_le(
                            old(self).spec_watermark()[a],
                            #[trigger] final(self).spec_watermark()[a],
                        )
                },
                Ok(None) => *final(self) == *old(self),
                Err(e) => e == ConsensusError::FatalQuorumMismatch || e
                    == ConsensusError::FatalClockRegression || e
                    == ConsensusError::FatalOwnBlockRejected,
            },
            // The no-proposal outcome, exactly.
            (r == Ok::<Option<VerifiedBlock>, ConsensusError>(None)) <==> (old(
                self,
            ).spec_clock_round() <= old(
                self,
            ).spec_last_proposed_block().spec_block().round || old(self).spec_clock_round()
                == u32::MAX || (!ignore_leaders_check && !leaders_exist(
                old(self).spec_dag(),
                (if old(self).spec_clock_round() == 0 {
                    0u32
                } else {
                    (old(self).spec_clock_round() - 1) as u32
                }),
                old(self).spec_num_of_leaders(),
                old(self).spec_committee(),
            ))),
            // Success owed: with a proposable round, leaders at hand, a
            // parent quorum, sound timestamps and the own chain at its top,
            // only a reference collision can stop a proposal.
            (old(self).spec_clock_round() > old(
                self,
            ).spec_last_proposed_block().spec_block().round && old(self).spec_clock_round()
                < u32::MAX && (ignore_leaders_check || leaders_exist(
                old(self).spec_dag(),
                (old(self).spec_clock_round() - 1) as u32,
                old(self).spec_num_of_leaders(),
                old(self).spec_committee(),
            )) && parents_have_quorum(
                old(self).spec_dag().spec_blocks(),
                old(self).spec_watermark(),
                (old(self).spec_clock_round() - 1) as u32,
                old(self).spec_committee(),
            ) && parents_timestamps_ok(
                old(self).spec_dag().spec_blocks(),
                old(self).spec_watermark(),
                (old(self).spec_clock_round() - 1) as u32,
                now,
                old(self).spec_committee().spec_size(),
            ) && is_last_block_up_to(
                old(self).spec_dag().spec_blocks(),
                old(self).spec_own_index() as int,
                (old(self).spec_clock_round() - 1) as u32,
                old(self).spec_last_proposed_block(),
            )) ==> (r matches Ok(Some(_)) || r == Err::<Option<VerifiedBlock>, ConsensusError>(
                ConsensusError::FatalOwnBlockRejected,
            )),
            // A rejected own block means the DAG already held a block at the
            // own slot of this round.
            r == Err::<Option<VerifiedBlock>, ConsensusError>(
                ConsensusError::FatalOwnBlockRejected,
            ) ==> old(self).spec_dag().contains_slot(
                Slot {
                    round: old(self).spec_clock_round(),
                    authority: old(self).spec_own_index(),
                },
            ),
    {
        let clock_round = self.threshold_clock.get_round();
        if clock_round <= self.last_proposed_block.round() {
            return Ok(None);
        }
        if !(ignore_leaders_check || self.last_quorum_leaders_exist()) {
            return Ok(None);
        }
        if clock_round == u32::MAX {
            return Ok(None);
        }
        let (ancestors, new_wm) = match self.ancestors_to_propose(clock_round, now) {
            Ok(p) => p,
            Err(e) => {
                return Err(e);
            },
        };
        proof {
            self.context.committee.wf_facts();
        }
        let transactions = self.transaction_consumer.next();
        let epoch = self.context.committee.epoch();
        let block = crate::block::Block {
            epoch,
            round: clock_round,
            author: self.context.own_index,
            timestamp_ms: now,
            ancestors,
            transactions,
        };
        let verified = VerifiedBlock::new_signed(block, &self.block_signer);
        let own_ref = verified.reference();
        proof {
            crate::threshold_clock::lemma_clock_step_monotone(
                self.threshold_clock.spec_round(),
                self.threshold_clock.spec_included(),
                own_ref,
                self.spec_committee(),
            );
        }
        self.threshold_clock.add_block(own_ref, &self.context.committee);
        if self.dag_state.contains_block_ref(&own_ref) {
            proof {
                let wb = choose|i: int|
                    0 <= i < self.spec_dag().spec_blocks().len() && (
                    #[trigger] self.spec_dag().spec_blocks()[i]).spec_reference() == own_ref;
                assert(self.spec_dag().spec_blocks()[wb].spec_block().round == clock_round
                    && self.spec_dag().spec_blocks()[wb].spec_block().author
                    == self.context.own_index);
            }
            return Err(ConsensusError::FatalOwnBlockRejected);
        }
        proof {
            assert(valid_block(verified, self.spec_committee().spec_size()));
        }
        self.dag_state.accept_block(verified.clone(), &self.context.committee);
        proof {
            assert(block_in(self.spec_dag().spec_blocks(), verified)) by {
                assert(self.spec_dag().spec_blocks().last() == verified);
            }
        }
        self.last_proposed_block = verified.clone();
        self.last_included_ancestors = new_wm;
        self.signals.new_block_ready(own_ref);
        proof {
            let k = verified.spec_block().transactions@.len() as int;
            assert(verified.spec_block().spec_tx_views() == old(
                self,
            ).spec_consumer().spec_pending().take(k));
        }
        Ok(Some(verified))
    }

    /// Force a proposal for the dictated round on a leader timeout; a no-op
    /// when a block at or above that round was already proposed.
    pub fn force_new_block(&mut self, round: u32, now: u64) -> (r: ConsensusResult<
        Option<VerifiedBlock>,
    >)
        requires
            old(self).wf(),
        ensures
            final(self).wf(),
            final(self).spec_committee() == old(self).spec_committee(),
            final(self).spec_own_index() == old(self).spec_own_index(),
            old(self).spec_last_proposed_block().spec_block().round >= round ==> r
                == Ok::<Option<VerifiedBlock>, ConsensusError>(None) && *final(self) == *old(
                self,
            ),
            final(self).spec_signals().spec_history() == old(self).spec_signals().spec_history(),
            final(self).spec_signals().spec_last_new_round() == old(
                self,
            ).spec_signals().spec_last_new_round(),
            final(self).spec_signals().spec_leader_history() == old(
                self,
            ).spec_signals().spec_leader_history(),
            // A forced block is both announced as ready and broadcast.
            final(self).spec_signals().spec_ready_history() == (match r {
                Ok(Some(b)) => old(self).spec_signals().spec_ready_history().push(
                    (b.spec_reference(), old(self).spec_signals().spec_last_new_round()),
                ),
                _ => old(self).spec_signals().spec_ready_history(),
            }),
            final(self).spec_signals().spec_broadcast_history() == (match r {
                Ok(Some(b)) => old(self).spec_signals().spec_broadcast_history().push(b),
                _ => old(self).spec_signals().spec_broadcast_history(),
            }),
            match r {
                Ok(Some(b)) => {
                    &&& b.wf()
                    &&& b.spec_block().author == old(self).spec_own_index()
                    &&& b.spec_block().round == old(self).spec_clock_round()
                    &&& b.spec_block().round > old(
                        self,
                    ).spec_last_proposed_block().spec_block().round
                    &&& final(self).spec_last_proposed_block() == b
                },
                Ok(None) => final(self).spec_last_proposed_block() == old(
                    self,
                ).spec_last_proposed_block(),
                Err(e) => e == ConsensusError::FatalQuorumMismatch || e
                    == ConsensusError::FatalClockRegression || e
                    == ConsensusError::FatalOwnBlockRejected,
            },
            // Success owed on a timeout, up to a reference collision.
            (old(self).spec_last_proposed_block().spec_block().round < round && old(
                self,
            ).spec_clock_round() > old(self).spec_last_proposed_block().spec_block().round && old(
                self,
            ).spec_clock_round() < u32::MAX && parents_have_quorum(
                old(self).spec_dag().spec_blocks(),
                old(self).spec_watermark(),
                (old(self).spec_clock_round() - 1) as u32,
                old(self).spec_committee(),
            ) && parents_timestamps_ok(
                old(self).spec_dag().spec_blocks(),
                old(self).spec_watermark(),
                (old(self).spec_clock_round() - 1) as u32,
                now,
                old(self).spec_committee().spec_size(),
            ) && is_last_block_up_to(
                old(self).spec_dag().spec_blocks(),
                old(self).spec_own_index() as int,
                (old(self).spec_clock_round() - 1) as u32,
                old(self).spec_last_proposed_block(),
            )) ==> (r matches Ok(Some(_)) || r == Err::<Option<VerifiedBlock>, ConsensusError>(
                ConsensusError::FatalOwnBlockRejected,
            )),
            r == Err::<Option<VerifiedBlock>, ConsensusError>(
                ConsensusError::FatalOwnBlockRejected,
            ) ==> old(self).spec_dag().contains_slot(
                Slot {
                    round: old(self).spec_clock_round(),
                    authority: old(self).spec_own_index(),
                },
            ),
    {
        if self.last_proposed_round() < round {
            match self.try_new_block(true, now) {
                Ok(Some(b)) => {
                    let _ = self.signals.new_block(b.clone());
                    Ok(Some(b))
                },
                Ok(None) => Ok(None),
                Err(e) => Err(e),
            }
        } else {
            Ok(None)
        }
    }

    /// Ingest externally received blocks: accept what has its causal history,
    /// advance the clock, run the commit rule, attempt a proposal, and
    /// otherwise notify for accepted leaders. Returns the references that
    /// are still unknown and need to be fetched.
    #[verifier::rlimit(100)]
    #[verifier::spinoff_prover]
    pub fn add_blocks(&mut self, blocks: Vec<VerifiedBlock>, now: u64) -> (r: ConsensusResult<
        Vec<BlockRef>,
    >)
        requires
            old(self).wf(),
            forall|i: int| 0 <= i < blocks@.len() ==> (#[trigger] blocks@[i]).wf(),
        ensures
            final(self).wf(),
            final(self).spec_committee() == old(self).spec_committee(),
            final(self).spec_own_index() == old(self).spec_own_index(),
            final(self).spec_last_decided_leader().round >= old(
                self,
            ).spec_last_decided_leader().round,
            // A structurally invalid block fails the whole batch, and
            // nothing else does so.
            (r == Err::<Vec<BlockRef>, ConsensusError>(ConsensusError::InvalidBlock)) <==> (
            exists|i: int|
                0 <= i < blocks@.len() && !valid_block(
                    blocks@[i],
                    old(self).spec_committee().spec_size(),
                )),
            // The returned references are exactly what is still missing.
            r matches Ok(m) ==> m@ == final(self).spec_missing(),
            // The DAG and the clock advance by exactly the accepted batch,
            // plus the own proposal when one was made.
            r is Ok ==> exists|acc: Seq<VerifiedBlock>|
                #![auto]
                ingested(*old(self), *final(self), acc),
            // Leader notification is published only when no proposal was
            // made in this call.
            r is Ok && final(self).spec_last_proposed_block() != old(
                self,
            ).spec_last_proposed_block() ==> final(self).spec_signals().spec_leader_history()
                == old(self).spec_signals().spec_leader_history(),
            // The ingest is complete: an input block is accepted, or one of
            // its ancestors is returned as missing.
            r matches Ok(m) ==> forall|i: int|
                0 <= i < blocks@.len() ==> final(self).spec_dag().contains_ref(
                    (#[trigger] blocks@[i]).spec_reference(),
                ) || exists|j: int|
                    0 <= j < blocks@[i].spec_block().ancestors@.len() && m@.contains(
                        #[trigger] blocks@[i].spec_block().ancestors@[j],
                    ),
            // A proposal is owed: when the accepted batch completes a
            // proposable round with its leaders, a parent quorum and sound
            // timestamps, an Ok outcome carries a new proposal.
            r is Ok ==> forall|acc: Seq<VerifiedBlock>|
                ingested(*old(self), *final(self), acc) && #[trigger] proposal_due(
                    *old(self),
                    acc,
                    now,
                ) ==> final(self).spec_last_proposed_block() != old(
                    self,
                ).spec_last_proposed_block(),
    {
        let (accepted, missing) = match self.block_manager.try_accept_blocks(
            blocks,
            &mut self.dag_state,
            &self.context.committee,
        ) {
            Ok(p) => p,
            Err(e) => {
                return Err(e);
            },
        };
        let ghost acc_dag = self.spec_dag();
        proof {
            assert(block_in(self.spec_dag().spec_blocks(), self.spec_last_proposed_block())) by {
                let w = choose|i: int|
                    0 <= i < old(self).spec_dag().spec_blocks().len() && old(
                        self,
                    ).spec_dag().spec_blocks()[i] == self.spec_last_proposed_block();
                assert(self.spec_dag().spec_blocks()[w] == self.spec_last_proposed_block());
            }
        }
        match self.add_accepted_blocks(&accepted) {
            Ok(()) => {},
            Err(e) => {
                return Err(e);
            },
        }
        let ghost mid = *self;
        match self.ingest_tail(&accepted, now) {
            Ok(()) => {},
            Err(e) => {
                return Err(e);
            },
        }
        proof {
            let acc = accepted@;
            let folded = crate::threshold_clock::clock_fold(
                old(self).spec_clock_round(),
                old(self).spec_clock_included(),
                refs_of_blocks(acc),
                old(self).spec_committee(),
            );
            assert(mid.spec_dag().spec_blocks() == old(self).spec_dag().spec_blocks() + acc);
            assert((mid.spec_clock_round(), mid.spec_clock_included()) == folded);
            assert(mid.spec_last_proposed_block() == old(self).spec_last_proposed_block());
            if self.spec_last_proposed_block() == old(self).spec_last_proposed_block() {
                assert(self.spec_dag().spec_blocks() == mid.spec_dag().spec_blocks());
                assert(ingested(*old(self), *self, acc));
            } else {
                assert(self.spec_dag().spec_blocks() == mid.spec_dag().spec_blocks().push(
                    self.spec_last_proposed_block(),
                ));
                assert(self.spec_dag().spec_blocks() =~= old(self).spec_dag().spec_blocks() + acc
                    + seq![self.spec_last_proposed_block()]);
                assert(ingested(*old(self), *self, acc));
            }
            assert(exists|acc2: Seq<VerifiedBlock>|
                #![auto]
                ingested(*old(self), *self, acc2));
            // Completeness: the DAG only grew after acceptance, so what was
            // accepted stays present, and what was not has a reported
            // missing ancestor.
            assert forall|t: int|
                0 <= t < blocks@.len() implies self.spec_dag().contains_ref(
                (#[trigger] blocks@[t]).spec_reference(),
            ) || exists|j: int|
                0 <= j < blocks@[t].spec_block().ancestors@.len() && missing@.contains(
                    #[trigger] blocks@[t].spec_block().ancestors@[j],
                ) by {
                if acc_dag.contains_ref(blocks@[t].spec_reference()) {
                    crate::dag_state::lemma_refs_preserved(
                        acc_dag.spec_blocks(),
                        self.spec_dag().spec_blocks(),
                    );
                }
            }
            // The owed proposal: any batch that satisfies the ingest
            // relation is the accepted batch, and when it completes a
            // proposable round, the tail proposed.
            assert forall|acc2: Seq<VerifiedBlock>|
                ingested(*old(self), *self, acc2) && #[trigger] proposal_due(
                    *old(self),
                    acc2,
                    now,
                ) implies self.spec_last_proposed_block() != old(
                self,
            ).spec_last_proposed_block() by {
                if self.spec_last_proposed_block() == old(self).spec_last_proposed_block() {
                    let base = old(self).spec_dag().spec_blocks();
                    assert(self.spec_dag().spec_blocks() == base + acc2);
                    assert(self.spec_dag().spec_blocks() == base + accepted@);
                    assert(acc2 =~= accepted@) by {
                        assert(acc2.len() == accepted@.len());
                        assert forall|k: int| 0 <= k < acc2.len() implies acc2[k] == accepted@[
                            k] by {
                            assert((base + acc2)[base.len() + k] == acc2[k]);
                            assert((base + accepted@)[base.len() + k] == accepted@[k]);
                        }
                    }
                    assert(proposal_due(*old(self), accepted@, now));
                    lemma_leaders_exist_agree(
                        mid.spec_dag(),
                        (mid.spec_clock_round() - 1) as u32,
                        mid.spec_num_of_leaders(),
                        mid.spec_committee(),
                    );
                    assert(proposer_conditions(mid, now));
                    assert(false);
                }
            }
        }
        Ok(missing)
    }

    /// The tail of one ingest call: run the commit rule, attempt a proposal,
    /// and otherwise notify for accepted leaders.
    #[verifier::rlimit(100)]
    #[verifier::spinoff_prover]
    fn ingest_tail(&mut self, accepted: &Vec<VerifiedBlock>, now: u64) -> (r: ConsensusResult<()>)
        requires
            old(self).wf(),
        ensures
            final(self).wf(),
            final(self).spec_committee() == old(self).spec_committee(),
            final(self).spec_own_index() == old(self).spec_own_index(),
            final(self).spec_last_decided_leader().round >= old(
                self,
            ).spec_last_decided_leader().round,
            final(self).spec_missing() == old(self).spec_missing(),
            final(self).spec_signals().spec_history() == old(self).spec_signals().spec_history(),
            final(self).spec_signals().spec_last_new_round() == old(
                self,
            ).spec_signals().spec_last_new_round(),
            // A proposal is owed when the state at entry already satisfies
            // the proposer's conditions.
            (r is Ok && proposer_conditions(*old(self), now))
                ==> final(self).spec_last_proposed_block() != old(
                self,
            ).spec_last_proposed_block(),
            match r {
                Ok(()) => {
                    &&& (final(self).spec_last_proposed_block() == old(
                        self,
                    ).spec_last_proposed_block() ==> final(self).spec_dag().spec_blocks() == old(
                        self,
                    ).spec_dag().spec_blocks() && (
                    final(self).spec_clock_round(),
                    final(self).spec_clock_included(),
                    ) == (old(self).spec_clock_round(), old(self).spec_clock_included())
                        && final(self).spec_signals().spec_ready_history() == old(
                        self,
                    ).spec_signals().spec_ready_history()
                        && final(self).spec_signals().spec_broadcast_history() == old(
                        self,
                    ).spec_signals().spec_broadcast_history())
                    &&& (final(self).spec_last_proposed_block() != old(
                        self,
                    ).spec_last_proposed_block() ==> final(self).spec_dag().spec_blocks() == old(
                        self,
                    ).spec_dag().spec_blocks().push(final(self).spec_last_proposed_block()) && (
                    final(self).spec_clock_round(),
                    final(self).spec_clock_included(),
                    ) == crate::threshold_clock::clock_step(
                        old(self).spec_clock_round(),
                        old(self).spec_clock_included(),
                        final(self).spec_last_proposed_block().spec_reference(),
                        old(self).spec_committee(),
                    ) && final(self).spec_last_proposed_block().spec_block().round == old(
                        self,
                    ).spec_clock_round() && final(self).spec_signals().spec_leader_history() == old(
                        self,
                    ).spec_signals().spec_leader_history()
                        && final(self).spec_signals().spec_ready_history() == old(
                        self,
                    ).spec_signals().spec_ready_history().push(
                        (
                            final(self).spec_last_proposed_block().spec_reference(),
                            old(self).spec_signals().spec_last_new_round(),
                        ),
                    ) && final(self).spec_signals().spec_broadcast_history() == old(
                        self,
                    ).spec_signals().spec_broadcast_history().push(
                        final(self).spec_last_proposed_block(),
                    ))
                },
                Err(e) => e == ConsensusError::FatalQuorumMismatch || e
                    == ConsensusError::FatalClockRegression || e
                    == ConsensusError::FatalOwnBlockRejected || e
                    == ConsensusError::FatalCommitIndexOverflow || e == ConsensusError::Shutdown,
            },
    {
        match self.try_commit() {
            Ok(_) => {},
            Err(e) => {
                return Err(e);
            },
        }
        proof {
            // The commit step leaves every proposer input untouched.
            if proposer_conditions(*old(self), now) {
                lemma_leaders_exist_agree(
                    old(self).spec_dag(),
                    (old(self).spec_clock_round() - 1) as u32,
                    old(self).spec_num_of_leaders(),
                    old(self).spec_committee(),
                );
                lemma_leaders_exist_agree(
                    self.spec_dag(),
                    (self.spec_clock_round() - 1) as u32,
                    self.spec_num_of_leaders(),
                    self.spec_committee(),
                );
                assert(proposer_conditions(*self, now));
            }
        }
        match self.try_new_block(false, now) {
            Ok(Some(b)) => {
                let _ = self.signals.new_block(b);
            },
            Ok(None) => {
                match self.notify_for_accepted_leaders(accepted) {
                    Ok(()) => {},
                    Err(e) => {
                        return Err(e);
                    },
                }
            },
            Err(e) => {
                return Err(e);
            },
        }
        Ok(())
    }

    /// After a batch that did not produce a proposal: if a leader of the last
    /// quorum round was just accepted, publish the snapshot of found
    /// leaders.
    fn notify_for_accepted_leaders(&mut self, accepted: &Vec<VerifiedBlock>) -> (r:
        ConsensusResult<()>)
        requires
            old(self).wf(),
        ensures
            final(self).wf(),
            r is Ok || r == Err::<(), ConsensusError>(ConsensusError::Shutdown),
            final(self).spec_committee() == old(self).spec_committee(),
            final(self).spec_own_index() == old(self).spec_own_index(),
            final(self).spec_clock_round() == old(self).spec_clock_round(),
            final(self).spec_clock_included() == old(self).spec_clock_included(),
            final(self).spec_last_proposed_block() == old(self).spec_last_proposed_block(),
            final(self).spec_watermark() == old(self).spec_watermark(),
            final(self).spec_dag() == old(self).spec_dag(),
            final(self).spec_last_decided_leader() == old(self).spec_last_decided_leader(),
            final(self).spec_missing() == old(self).spec_missing(),
            final(self).spec_consumer() == old(self).spec_consumer(),
            final(self).spec_signals().spec_history() == old(self).spec_signals().spec_history(),
            final(self).spec_signals().spec_last_new_round() == old(
                self,
            ).spec_signals().spec_last_new_round(),
            final(self).spec_signals().spec_ready_history() == old(
                self,
            ).spec_signals().spec_ready_history(),
            final(self).spec_signals().spec_broadcast_history() == old(
                self,
            ).spec_signals().spec_broadcast_history(),
            // What reaches the leader-accepted channel, exactly.
            ({
                let q = if old(self).spec_clock_round() == 0 {
                    0u32
                } else {
                    (old(self).spec_clock_round() - 1) as u32
                };
                let fired = accepted@.len() > 0 && q != 0 && some_leader_accepted(
                    accepted@,
                    q,
                    old(self).spec_num_of_leaders(),
                    old(self).spec_committee(),
                );
                &&& (!fired ==> r is Ok && final(self).spec_signals().spec_leader_history() == old(
                    self,
                ).spec_signals().spec_leader_history())
                &&& (fired && r is Ok ==> final(self).spec_signals().spec_leader_history() == old(
                    self,
                ).spec_signals().spec_leader_history().push(
                    (
                        q,
                        leaders_snapshot(
                            old(self).spec_dag(),
                            q,
                            old(self).spec_num_of_leaders(),
                            old(self).spec_committee(),
                        ),
                    ),
                ))
                &&& (fired && r is Err ==> final(self).spec_signals().spec_leader_history() == old(
                    self,
                ).spec_signals().spec_leader_history())
            }),
    {
        if accepted.len() == 0 {
            return Ok(());
        }
        let current_round = self.threshold_clock.get_round();
        let quorum_round: u32 = if current_round == 0 {
            0
        } else {
            current_round - 1
        };
        let leaders = self.leaders(quorum_round);
        if leaders.len() == 0 {
            proof {
                if some_leader_accepted(
                    accepted@,
                    quorum_round,
                    self.spec_num_of_leaders(),
                    self.spec_committee(),
                ) {
                    assert(quorum_round != 0 ==> leaders@.len() == self.spec_num_of_leaders());
                }
            }
            return Ok(());
        }
        let mut new_leader_received = false;
        let mut i: usize = 0;
        while i < accepted.len()
            invariant
                0 <= i <= accepted@.len(),
                self.wf(),
                leaders@.len() > 0,
                quorum_round != 0,
                leaders@.len() == self.spec_num_of_leaders(),
                forall|l2: int|
                    0 <= l2 < leaders@.len() ==> leaders@[l2] == leader_slot_of(
                        quorum_round,
                        l2,
                        self.spec_committee(),
                    ),
                new_leader_received == exists|i2: int, l2: int|
                    #![trigger accepted@[i2], leaders@[l2]]
                    0 <= i2 < i && 0 <= l2 < leaders@.len() && accepted@[i2].spec_block().round
                        == leaders@[l2].round && accepted@[i2].spec_block().author == leaders@[
                        l2].authority,
            decreases accepted@.len() - i,
        {
            let ghost pre_flag = new_leader_received;
            let row = Self::block_matches_some_leader(&accepted[i], &leaders);
            if row {
                new_leader_received = true;
            }
            proof {
                assert(new_leader_received == (exists|i2: int, l2: int|
                    #![trigger accepted@[i2], leaders@[l2]]
                    0 <= i2 < i + 1 && 0 <= l2 < leaders@.len() && accepted@[i2].spec_block().round
                        == leaders@[l2].round && accepted@[i2].spec_block().author == leaders@[
                        l2].authority)) by {
                    if new_leader_received {
                        if pre_flag {
                            let (wi, wl) = choose|i2: int, l2: int|
                                #![trigger accepted@[i2], leaders@[l2]]
                                0 <= i2 < i && 0 <= l2 < leaders@.len() && accepted@[
                                    i2].spec_block().round == leaders@[l2].round && accepted@[
                                    i2].spec_block().author == leaders@[l2].authority;
                            assert(0 <= wi < i + 1 && accepted@[wi].spec_block().round == leaders@[
                                wl].round && accepted@[wi].spec_block().author == leaders@[
                                wl].authority);
                        } else {
                            let wl = choose|l2: int|
                                0 <= l2 < leaders@.len() && accepted@[i as int].spec_block().round
                                    == (#[trigger] leaders@[l2]).round && accepted@[
                                    i as int].spec_block().author == leaders@[l2].authority;
                            let iw = i as int;
                            assert(0 <= iw < i + 1 && accepted@[iw].spec_block().round == leaders@[
                                wl].round && accepted@[iw].spec_block().author == leaders@[
                                wl].authority);
                        }
                    } else {
                        if exists|i2: int, l2: int|
                            #![trigger accepted@[i2], leaders@[l2]]
                            0 <= i2 < i + 1 && 0 <= l2 < leaders@.len() && accepted@[
                                i2].spec_block().round == leaders@[l2].round && accepted@[
                                i2].spec_block().author == leaders@[l2].authority {
                            let (wi, wl) = choose|i2: int, l2: int|
                                #![trigger accepted@[i2], leaders@[l2]]
                                0 <= i2 < i + 1 && 0 <= l2 < leaders@.len() && accepted@[
                                    i2].spec_block().round == leaders@[l2].round && accepted@[
                                    i2].spec_block().author == leaders@[l2].authority;
                            if wi < i {
                                assert(pre_flag);
                            } else {
                                assert(row);
                            }
                            assert(false);
                        }
                    }
                }
            }
            i = i + 1;
        }
        proof {
            // The scan's outcome coincides with the abstract condition.
            let q = quorum_round;
            let num = self.spec_num_of_leaders();
            assert(new_leader_received == some_leader_accepted(
                accepted@,
                q,
                num,
                self.spec_committee(),
            )) by {
                if new_leader_received {
                    let (wi, wl) = choose|i2: int, l2: int|
                        #![trigger accepted@[i2], leaders@[l2]]
                        0 <= i2 < accepted@.len() && 0 <= l2 < leaders@.len() && accepted@[
                            i2].spec_block().round == leaders@[l2].round && accepted@[
                            i2].spec_block().author == leaders@[l2].authority;
                    assert(leaders@[wl] == leader_slot_of(q, wl, self.spec_committee()));
                    assert(accepted@[wi].spec_block().round == q);
                }
                if some_leader_accepted(accepted@, q, num, self.spec_committee()) {
                    let (wi, wl) = choose|i2: int, l2: int|
                        #![trigger accepted@[i2], leader_slot_of(q, l2, self.spec_committee())]
                        0 <= i2 < accepted@.len() && 0 <= l2 < num && accepted@[
                            i2].spec_block().round == q && accepted@[i2].spec_block().author
                            == leader_slot_of(q, l2, self.spec_committee()).authority;
                    assert(leaders@[wl] == leader_slot_of(q, wl, self.spec_committee()));
                    assert(accepted@[wi].spec_block().round == leaders@[wl].round && accepted@[
                        wi].spec_block().author == leaders@[wl].authority);
                }
            }
        }
        if !new_leader_received {
            return Ok(());
        }
        let mut accepted_leaders: Vec<Option<Slot>> = Vec::new();
        let mut k: usize = 0;
        while k < leaders.len()
            invariant
                0 <= k <= leaders@.len(),
                self.wf(),
                quorum_round != 0,
                leaders@.len() == self.spec_num_of_leaders(),
                forall|l2: int|
                    0 <= l2 < leaders@.len() ==> leaders@[l2] == leader_slot_of(
                        quorum_round,
                        l2,
                        self.spec_committee(),
                    ),
                accepted_leaders@.len() == k,
                forall|l2: int|
                    0 <= l2 < k ==> (#[trigger] accepted_leaders@[l2]) == leaders_snapshot(
                        self.spec_dag(),
                        quorum_round,
                        self.spec_num_of_leaders(),
                        self.spec_committee(),
                    )[l2],
            decreases leaders@.len() - k,
        {
            if self.dag_state.contains_block_at_slot(leaders[k]) {
                accepted_leaders.push(Some(leaders[k]));
            } else {
                accepted_leaders.push(None);
            }
            k = k + 1;
        }
        proof {
            assert(accepted_leaders@ =~= leaders_snapshot(
                self.spec_dag(),
                quorum_round,
                self.spec_num_of_leaders(),
                self.spec_committee(),
            ));
        }
        self.signals.leader_accepted(quorum_round, accepted_leaders)
    }

    /// Whether `b` sits at one of the given leader slots.
    fn block_matches_some_leader(b: &VerifiedBlock, leaders: &Vec<Slot>) -> (r: bool)
        ensures
            r == exists|l: int|
                0 <= l < leaders@.len() && b.spec_block().round == (#[trigger] leaders@[l]).round
                    && b.spec_block().author == leaders@[l].authority,
    {
        let mut l: usize = 0;
        let n = leaders.len();
        while l < n
            invariant
                0 <= l <= n,
                n == leaders@.len(),
                forall|l2: int|
                    0 <= l2 < l ==> !(b.spec_block().round == (#[trigger] leaders@[l2]).round
                        && b.spec_block().author == leaders@[l2].authority),
            decreases n - l,
        {
            if b.round() == leaders[l].round && b.author() == leaders[l].authority {
                return true;
            }
            l = l + 1;
        }
        false
    }
}

/// Whether the watermark covers the reference `x`: the entry of its author
/// reaches at least its round.
pub open spec fn wm_covers(wm: Seq<Option<BlockRef>>, x: BlockRef) -> bool {
    0 <= x.author < wm.len() && match wm[x.author as int] {
        Some(r) => r.round >= x.round,
        None => false,
    }
}

/// The references of a sequence of blocks, in order.
pub open spec fn refs_of_blocks(s: Seq<VerifiedBlock>) -> Seq<BlockRef> {
    s.map_values(|b: VerifiedBlock| b.spec_reference())
}

/// Whether authority `a` has any proposable candidate at or below
/// `max_round`: its highest block there passes the watermark.
pub open spec fn candidate_admitted(
    blocks: Seq<VerifiedBlock>,
    wm: Seq<Option<BlockRef>>,
    a: int,
    max_round: u32,
) -> bool {
    exists|b: VerifiedBlock|
        #[trigger] is_last_block_up_to(blocks, a, max_round, b) && watermark_admits(wm, a, b)
}

/// Whether some block of `blocks` sits at slot `s`.
pub open spec fn slot_in(blocks: Seq<VerifiedBlock>, s: Slot) -> bool {
    exists|i: int|
        0 <= i < blocks.len() && (#[trigger] blocks[i]).spec_block().round == s.round && blocks[
            i].spec_block().author == s.authority
}

/// Whether every leader slot of round `q` has a block among `blocks`.
pub open spec fn leaders_exist_in(
    blocks: Seq<VerifiedBlock>,
    q: u32,
    num: nat,
    committee: Committee,
) -> bool {
    forall|i: int|
        0 <= i < (if q == 0 {
            0int
        } else {
            num as int
        }) ==> slot_in(blocks, #[trigger] leader_slot_of(q, i, committee))
}

/// The two readings of leader presence agree: over the DAG state and over
/// its block sequence.
pub proof fn lemma_leaders_exist_agree(dag: DagState, q: u32, num: nat, committee: Committee)
    ensures
        leaders_exist(dag, q, num, committee) == leaders_exist_in(
            dag.spec_blocks(),
            q,
            num,
            committee,
        ),
{
    let bound: int = if q == 0 {
        0
    } else {
        num as int
    };
    if leaders_exist(dag, q, num, committee) {
        assert forall|i: int| 0 <= i < bound implies slot_in(
            dag.spec_blocks(),
            #[trigger] leader_slot_of(q, i, committee),
        ) by {
            assert(dag.contains_slot(leader_slot_of(q, i, committee)));
            let w = choose|w: int|
                0 <= w < dag.spec_blocks().len() && (
                #[trigger] dag.spec_blocks()[w]).spec_block().round == leader_slot_of(
                    q,
                    i,
                    committee,
                ).round && dag.spec_blocks()[w].spec_block().author == leader_slot_of(
                    q,
                    i,
                    committee,
                ).authority;
            assert(slot_in(dag.spec_blocks(), leader_slot_of(q, i, committee)));
        }
    }
    if leaders_exist_in(dag.spec_blocks(), q, num, committee) {
        assert forall|i: int| 0 <= i < bound implies dag.contains_slot(
            #[trigger] leader_slot_of(q, i, committee),
        ) by {
            assert(slot_in(dag.spec_blocks(), leader_slot_of(q, i, committee)));
            let w = choose|w: int|
                0 <= w < dag.spec_blocks().len() && (
                #[trigger] dag.spec_blocks()[w]).spec_block().round == leader_slot_of(
                    q,
                    i,
                    committee,
                ).round && dag.spec_blocks()[w].spec_block().author == leader_slot_of(
                    q,
                    i,
                    committee,
                ).authority;
            assert(dag.contains_slot(leader_slot_of(q, i, committee)));
        }
    }
}

/// Whether `x` is referenced by some admitted highest candidate of the
/// parent round.
pub open spec fn ancestor_of_admitted(
    blocks: Seq<VerifiedBlock>,
    wm: Seq<Option<BlockRef>>,
    prev: u32,
    n: nat,
    x: BlockRef,
) -> bool {
    exists|a: int, b: VerifiedBlock, j: int|
        #![trigger is_last_block_up_to(blocks, a, prev, b), b.spec_block().ancestors@[j]]
        0 <= a < n && is_last_block_up_to(blocks, a, prev, b) && watermark_admits(wm, a, b) && 0
            <= j < b.spec_block().ancestors@.len() && b.spec_block().ancestors@[j] == x
}

/// Authority `a` has an admitted candidate that no admitted candidate
/// references: the selector must keep it.
pub open spec fn kept_uncompressed(
    blocks: Seq<VerifiedBlock>,
    wm: Seq<Option<BlockRef>>,
    prev: u32,
    n: nat,
    a: int,
) -> bool {
    &&& candidate_admitted(blocks, wm, a, prev)
    &&& forall|b: VerifiedBlock|
        #[trigger] is_last_block_up_to(blocks, a, prev, b) ==> !ancestor_of_admitted(
            blocks,
            wm,
            prev,
            n,
            b.spec_reference(),
        )
}

/// `x` is the reference of its author's highest block at or below `prev`.
pub open spec fn ref_is_last_candidate(blocks: Seq<VerifiedBlock>, prev: u32, x: BlockRef) -> bool {
    exists|b: VerifiedBlock|
        #![auto]
        is_last_block_up_to(blocks, x.author as int, prev, b) && b.spec_reference() == x
}

/// Whether `x` appears among the ancestors of some kept candidate.
pub open spec fn in_parent_union(
    cands: Seq<VerifiedBlock>,
    kept: Seq<bool>,
    x: BlockRef,
) -> bool {
    exists|a: int, j: int|
        0 <= a < cands.len() && kept[a] && 0 <= j < cands[a].spec_block().ancestors@.len() && (
        #[trigger] cands[a].spec_block().ancestors@[j]) == x
}

/// Which authorities appear among the first `k` of `refs` at exactly
/// `round`.
pub open spec fn ref_marks_prefix(refs: Seq<BlockRef>, round: u32, n: nat, k: int) -> Seq<bool> {
    Seq::new(
        n,
        |a: int|
            exists|i: int|
                0 <= i < k && i < refs.len() && (#[trigger] refs[i]).round == round && refs[i].author
                    == a,
    )
}

/// The proposed references cover, author by author, the admitted candidates
/// of the parent round: candidates at the parent round are never compressed
/// away, and the own slot is covered by the leading own reference.
#[verifier::rlimit(50)]
pub proof fn lemma_result_marks_cover(
    dag_blocks: Seq<VerifiedBlock>,
    wm: Seq<Option<BlockRef>>,
    cands: Seq<VerifiedBlock>,
    kept: Seq<bool>,
    result: Seq<BlockRef>,
    prev: u32,
    own: u32,
    lp: VerifiedBlock,
    n: nat,
)
    requires
        cands.len() == n,
        kept.len() == n,
        wm.len() == n,
        (own as nat) < n,
        forall|a: int| 0 <= a < n ==> is_last_block_up_to(dag_blocks, a, prev, #[trigger] cands[a]),
        forall|a: int| 0 <= a < n ==> kept[a] == watermark_admits(wm, a, #[trigger] cands[a]),
        forall|a: int| 0 <= a < n ==> valid_block(#[trigger] cands[a], n),
        result.len() >= 1,
        result[0] == lp.spec_reference(),
        lp.spec_block().author == own,
        is_last_block_up_to(dag_blocks, own as int, prev, lp),
        forall|a: int|
            0 <= a < n && a != own && kept[a] && !in_parent_union(
                cands,
                kept,
                (#[trigger] cands[a]).spec_reference(),
            ) ==> result.contains(cands[a].spec_reference()),
    ensures
        forall|a: int|
            0 <= a < n && kept_parent_marks(dag_blocks, wm, prev, n)[a] ==> ref_marks_at(
                result,
                prev,
                n,
            )[a],
{
    assert forall|a: int|
        0 <= a < n && kept_parent_marks(dag_blocks, wm, prev, n)[a] implies ref_marks_at(
        result,
        prev,
        n,
    )[a] by {
        let b = choose|b: VerifiedBlock|
            #[trigger] is_last_block_up_to(dag_blocks, a, prev, b) && watermark_admits(wm, a, b)
                && b.spec_block().round == prev;
        crate::dag_state::lemma_last_block_round_agree(dag_blocks, a, prev, b, cands[a]);
        assert(cands[a].spec_block().round == prev);
        assert(kept[a]);
        if a == own as int {
            crate::dag_state::lemma_last_block_round_agree(dag_blocks, a, prev, lp, cands[a]);
            assert(result[0].round == prev && result[0].author == a);
            assert(exists|i: int|
                0 <= i < result.len() && (#[trigger] result[i]).round == prev && result[i].author
                    == a);
        } else {
            assert(!in_parent_union(cands, kept, cands[a].spec_reference())) by {
                if in_parent_union(cands, kept, cands[a].spec_reference()) {
                    let (ua, uj) = choose|ua: int, uj: int|
                        0 <= ua < cands.len() && kept[ua] && 0 <= uj < cands[
                            ua].spec_block().ancestors@.len() && (
                        #[trigger] cands[ua].spec_block().ancestors@[uj]) == cands[
                            a].spec_reference();
                    assert(cands[ua].spec_block().ancestors@[uj].round
                        < cands[ua].spec_block().round);
                    assert(cands[ua].spec_block().round <= prev);
                }
            }
            assert(result.contains(cands[a].spec_reference()));
            let w = choose|w: int|
                0 <= w < result.len() && result[w] == cands[a].spec_reference();
            assert(result[w].round == prev && result[w].author == a);
        }
    }
}

/// Compression of the proposed references: a reference among the
/// non-self-parent ancestors is never an ancestor of another one, and
/// nothing already referenced by the previous own proposal reappears.
#[verifier::rlimit(50)]
pub proof fn lemma_result_compression(
    dag_blocks: Seq<VerifiedBlock>,
    wm: Seq<Option<BlockRef>>,
    cands: Seq<VerifiedBlock>,
    kept: Seq<bool>,
    result: Seq<BlockRef>,
    own: u32,
    lp: VerifiedBlock,
    n: nat,
)
    requires
        crate::dag_state::refs_unique(dag_blocks),
        cands.len() == n,
        kept.len() == n,
        wm.len() == n,
        forall|a: int| 0 <= a < n ==> block_in(dag_blocks, #[trigger] cands[a]),
        forall|a: int| 0 <= a < n ==> kept[a] == watermark_admits(wm, a, #[trigger] cands[a]),
        valid_block(lp, n),
        result.len() >= 1,
        result[0] == lp.spec_reference(),
        forall|j: int|
            0 <= j < lp.spec_block().ancestors@.len() ==> wm_covers(
                wm,
                #[trigger] lp.spec_block().ancestors@[j],
            ),
        forall|s: int|
            1 <= s < result.len() ==> exists|a4: int|
                0 <= a4 < n && a4 != own && kept[a4] && (#[trigger] result[s]) == cands[
                    a4].spec_reference() && result[s].author == a4,
        forall|s: int|
            1 <= s < result.len() ==> !in_parent_union(cands, kept, #[trigger] result[s]),
    ensures
        forall|c: VerifiedBlock, j: int|
            block_in(dag_blocks, c) && result.skip(1).contains(c.spec_reference()) && 0 <= j
                < c.spec_block().ancestors@.len() ==> !result.skip(1).contains(
                #[trigger] c.spec_block().ancestors@[j],
            ),
        forall|j: int|
            0 <= j < lp.spec_block().ancestors@.len() ==> !result.contains(
                #[trigger] lp.spec_block().ancestors@[j],
            ),
{
    assert forall|c: VerifiedBlock, j: int|
        block_in(dag_blocks, c) && result.skip(1).contains(c.spec_reference()) && 0 <= j
            < c.spec_block().ancestors@.len() implies !result.skip(1).contains(
        #[trigger] c.spec_block().ancestors@[j],
    ) by {
        let si = choose|si: int|
            0 <= si < result.skip(1).len() && result.skip(1)[si] == c.spec_reference();
        let s = si + 1;
        assert(result[s] == c.spec_reference());
        let a4 = choose|a4: int|
            0 <= a4 < n && a4 != own && kept[a4] && result[s] == cands[a4].spec_reference()
                && result[s].author == a4;
        crate::dag_state::lemma_same_ref_same_block(dag_blocks, c, cands[a4]);
        if result.skip(1).contains(c.spec_block().ancestors@[j]) {
            let ui = choose|ui: int|
                0 <= ui < result.skip(1).len() && result.skip(1)[ui] == c.spec_block().ancestors@[
                    j];
            let u = ui + 1;
            assert(result[u] == c.spec_block().ancestors@[j]);
            assert(!in_parent_union(cands, kept, result[u]));
            assert(cands[a4].spec_block().ancestors@[j] == result[u]);
            assert(in_parent_union(cands, kept, result[u]));
        }
    }
    assert forall|j: int|
        0 <= j < lp.spec_block().ancestors@.len() implies !result.contains(
        #[trigger] lp.spec_block().ancestors@[j],
    ) by {
        let x = lp.spec_block().ancestors@[j];
        assert(x.round < lp.spec_block().round);
        if result.contains(x) {
            let w = choose|w: int| 0 <= w < result.len() && result[w] == x;
            if w == 0 {
                assert(result[0].round == lp.spec_block().round);
            } else {
                let a4 = choose|a4: int|
                    0 <= a4 < n && a4 != own && kept[a4] && result[w] == cands[
                        a4].spec_reference() && result[w].author == a4;
                assert(wm_covers(wm, x));
                if x.author == a4 {
                    let entry = wm[a4];
                    assert(entry is Some);
                    assert(entry.unwrap().round >= x.round);
                    assert(entry.unwrap().round < cands[a4].spec_block().round);
                    assert(result[w].round == cands[a4].spec_block().round);
                } else {
                    assert(result[w].author != x.author);
                }
            }
        }
    }
}

/// One scan step extends the per-round reference marks by at most the
/// scanned reference's author.
pub proof fn lemma_ref_marks_step(refs: Seq<BlockRef>, round: u32, n: nat, i: int)
    requires
        0 <= i < refs.len(),
        (refs[i].author as nat) < n,
    ensures
        refs[i].round == round ==> ref_marks_prefix(refs, round, n, i + 1) =~= ref_marks_prefix(
            refs,
            round,
            n,
            i,
        ).update(refs[i].author as int, true),
        refs[i].round != round ==> ref_marks_prefix(refs, round, n, i + 1) =~= ref_marks_prefix(
            refs,
            round,
            n,
            i,
        ),
{
    let pre = ref_marks_prefix(refs, round, n, i);
    let post = ref_marks_prefix(refs, round, n, i + 1);
    if refs[i].round == round {
        let author = refs[i].author as int;
        assert forall|a: int| 0 <= a < n implies post[a] == pre.update(author, true)[a] by {
            if a == author {
                assert(0 <= i < i + 1 && refs[i].round == round && refs[i].author == a);
                assert(post[a]);
            } else {
                if post[a] {
                    let w = choose|w: int|
                        0 <= w < i + 1 && w < refs.len() && (#[trigger] refs[w]).round == round
                            && refs[w].author == a;
                    assert(w < i);
                    assert(pre[a]);
                }
                if pre[a] {
                    let w = choose|w: int|
                        0 <= w < i && w < refs.len() && (#[trigger] refs[w]).round == round
                            && refs[w].author == a;
                    assert(post[a]);
                }
            }
        }
    } else {
        assert forall|a: int| 0 <= a < n implies post[a] == pre[a] by {
            if post[a] {
                let w = choose|w: int|
                    0 <= w < i + 1 && w < refs.len() && (#[trigger] refs[w]).round == round
                        && refs[w].author == a;
                assert(w < i);
                assert(pre[a]);
            }
            if pre[a] {
                let w = choose|w: int|
                    0 <= w < i && w < refs.len() && (#[trigger] refs[w]).round == round
                        && refs[w].author == a;
                assert(post[a]);
            }
        }
    }
}

} // verus!
