//! The commit observer: resolves each committed leader into its causal
//! sub-DAG of not-yet-committed blocks, persists the commit, and hands the
//! sub-DAGs downstream.

use vstd::prelude::*;

use crate::block::{BlockRef, VerifiedBlock};
use crate::committee::Committee;
use crate::dag_state::{block_in, lemma_block_in_valid, valid_block, DagState};
use crate::error::{ConsensusError, ConsensusResult};
use crate::storage::TrustedCommit;

verus! {

/// A committed leader with its causally-preceding uncommitted blocks, in
/// round-descending collection order starting at the leader.
pub struct CommittedSubDag {
    pub leader: BlockRef,
    pub blocks: Vec<VerifiedBlock>,
    pub timestamp_ms: u64,
    pub commit_index: u64,
}

/// Observes committed leaders and persists their commits.
pub struct CommitObserver {
    commits_handled: u64,
}

impl CommitObserver {
    pub fn new() -> (r: CommitObserver)
        ensures
            true,
    {
        CommitObserver { commits_handled: 0 }
    }

    /// Resolve, persist and return the sub-DAGs of the committed leaders, in
    /// order. Fails only if the commit index would overflow, in which case
    /// nothing changes.
    pub fn handle_commit(
        &mut self,
        committed_leaders: Vec<VerifiedBlock>,
        dag: &mut DagState,
        committee: &Committee,
    ) -> (r: ConsensusResult<Vec<CommittedSubDag>>)
        requires
            old(dag).wf(*committee),
            forall|i: int|
                0 <= i < committed_leaders@.len() ==> block_in(
                    old(dag).spec_blocks(),
                    #[trigger] committed_leaders@[i],
                ),
        ensures
            final(dag).wf(*committee),
            final(dag).spec_blocks() == old(dag).spec_blocks(),
            final(dag).spec_last_commit_index() >= old(dag).spec_last_commit_index(),
            match r {
                Ok(subdags) => {
                    &&& subdags@.len() == committed_leaders@.len()
                    &&& forall|i: int|
                        0 <= i < subdags@.len() ==> (#[trigger] subdags@[i]).leader
                            == committed_leaders@[i].spec_reference()
                    &&& forall|i: int|
                        0 <= i < subdags@.len() ==> (#[trigger] subdags@[i]).commit_index
                            == old(dag).spec_last_commit_index() + i + 1
                    &&& final(dag).spec_last_commit_index() == old(dag).spec_last_commit_index()
                        + committed_leaders@.len()
                    &&& final(dag).spec_store().spec_commits().len() == old(
                        dag,
                    ).spec_store().spec_commits().len() + subdags@.len()
                    &&& forall|i: int|
                        0 <= i < old(dag).spec_store().spec_commits().len()
                            ==> (#[trigger] final(dag).spec_store().spec_commits()[i]) == old(
                            dag,
                        ).spec_store().spec_commits()[i]
                    &&& forall|i: int|
                        0 <= i < subdags@.len()
                            ==> (#[trigger] final(dag).spec_store().spec_commits()[old(
                            dag,
                        ).spec_store().spec_commits().len() + i]).spec_index() == old(
                            dag,
                        ).spec_last_commit_index() + i + 1
                    &&& forall|i: int|
                        0 <= i < subdags@.len()
                            ==> (#[trigger] final(dag).spec_store().spec_commits()[old(
                            dag,
                        ).spec_store().spec_commits().len() + i]).spec_leader() == subdags@[
                            i].leader
                    // Each sub-DAG leads with its leader block; the rest are
                    // accepted blocks from rounds below the leader's.
                    &&& forall|i: int|
                        0 <= i < subdags@.len() ==> (#[trigger] subdags@[i]).blocks@.len() >= 1
                            && subdags@[i].blocks@[0] == committed_leaders@[i]
                    &&& forall|i: int, k: int|
                        0 <= i < subdags@.len() && 1 <= k < (
                        #[trigger] subdags@[i]).blocks@.len() ==> block_in(
                            old(dag).spec_blocks(),
                            #[trigger] subdags@[i].blocks@[k],
                        ) && subdags@[i].blocks@[k].spec_block().round
                            < committed_leaders@[i].spec_block().round
                    &&& committed_leaders@.len() == 0 ==> *final(dag) == *old(dag)
                },
                Err(e) => {
                    &&& e == ConsensusError::FatalCommitIndexOverflow
                    &&& old(dag).spec_last_commit_index() + committed_leaders@.len() > u64::MAX
                    &&& *final(dag) == *old(dag)
                },
            },
    {
        let n = committee.size();
        let last_index = dag.last_commit_index();
        if (committed_leaders.len() as u64) > u64::MAX - last_index {
            return Err(ConsensusError::FatalCommitIndexOverflow);
        }
        let mut subdags: Vec<CommittedSubDag> = Vec::new();
        let mut i: usize = 0;
        let m = committed_leaders.len();
        while i < m
            invariant
                0 <= i <= m,
                m == committed_leaders@.len(),
                n == committee.spec_size(),
                dag.wf(*committee),
                dag.spec_blocks() == old(dag).spec_blocks(),
                forall|k: int|
                    0 <= k < committed_leaders@.len() ==> block_in(
                        old(dag).spec_blocks(),
                        #[trigger] committed_leaders@[k],
                    ),
                last_index == old(dag).spec_last_commit_index(),
                last_index + m <= u64::MAX,
                dag.spec_last_commit_index() == last_index + i,
                i == 0 ==> *dag == *old(dag),
                subdags@.len() == i,
                forall|k: int|
                    0 <= k < i ==> (#[trigger] subdags@[k]).leader
                        == committed_leaders@[k].spec_reference(),
                forall|k: int|
                    0 <= k < i ==> (#[trigger] subdags@[k]).commit_index == last_index + k + 1,
                dag.spec_store().spec_commits().len() == old(dag).spec_store().spec_commits().len()
                    + i,
                forall|k: int|
                    0 <= k < old(dag).spec_store().spec_commits().len() ==> (
                    #[trigger] dag.spec_store().spec_commits()[k]) == old(
                        dag,
                    ).spec_store().spec_commits()[k],
                forall|k: int|
                    0 <= k < i ==> (#[trigger] dag.spec_store().spec_commits()[old(
                        dag,
                    ).spec_store().spec_commits().len() + k]).spec_index() == last_index + k + 1,
                forall|k: int|
                    0 <= k < i ==> (#[trigger] dag.spec_store().spec_commits()[old(
                        dag,
                    ).spec_store().spec_commits().len() + k]).spec_leader() == subdags@[k].leader,
                forall|k: int|
                    0 <= k < i ==> (#[trigger] subdags@[k]).blocks@.len() >= 1 && subdags@[
                        k].blocks@[0] == committed_leaders@[k],
                forall|k: int, t: int|
                    0 <= k < i && 1 <= t < (#[trigger] subdags@[k]).blocks@.len() ==> block_in(
                        old(dag).spec_blocks(),
                        #[trigger] subdags@[k].blocks@[t],
                    ) && subdags@[k].blocks@[t].spec_block().round
                        < committed_leaders@[k].spec_block().round,
            decreases m - i,
        {
            let leader = committed_leaders[i].clone();
            proof {
                lemma_block_in_valid(dag.spec_blocks(), leader, committee.spec_size());
            }
            let index = last_index + 1 + (i as u64);
            let mut rounds: Vec<u32> = Vec::new();
            let mut c: usize = 0;
            let rounds_len = dag.last_committed_rounds().len();
            while c < rounds_len
                invariant
                    0 <= c <= rounds_len,
                    rounds_len == dag.spec_last_committed_rounds().len(),
                    rounds@.len() == c,
                    forall|k: int|
                        0 <= k < c ==> (#[trigger] rounds@[k]) == dag.spec_last_committed_rounds()[
                            k],
                decreases rounds_len - c,
            {
                let v = dag.last_committed_rounds()[c];
                rounds.push(v);
                c = c + 1;
            }
            proof {
                assert(rounds@ =~= dag.spec_last_committed_rounds());
            }
            let blocks = Self::collect_subdag(&leader, dag, committee, &rounds);
            let new_rounds = Self::advance_committed_rounds(&rounds, &blocks, committee);
            let mut refs: Vec<BlockRef> = Vec::new();
            let mut b: usize = 0;
            while b < blocks.len()
                invariant
                    0 <= b <= blocks@.len(),
                    refs@.len() == b,
                decreases blocks@.len() - b,
            {
                refs.push(blocks[b].reference());
                b = b + 1;
            }
            let commit = TrustedCommit::new(index, leader.reference(), refs);
            dag.add_commit(commit, new_rounds, committee);
            let timestamp_ms = leader.timestamp_ms();
            subdags.push(
                CommittedSubDag { leader: leader.reference(), blocks, timestamp_ms, commit_index: index },
            );
            i = i + 1;
        }
        Ok(subdags)
    }

    /// Collect the leader and its causally-preceding blocks above the
    /// committed-round watermarks, by descending rounds from the leader.
    fn collect_subdag(
        leader: &VerifiedBlock,
        dag: &DagState,
        committee: &Committee,
        committed_rounds: &Vec<u32>,
    ) -> (r: Vec<VerifiedBlock>)
        requires
            dag.wf(*committee),
            valid_block(*leader, committee.spec_size()),
            committed_rounds@.len() == committee.spec_size(),
        ensures
            r@.len() >= 1,
            r@[0] == *leader,
            forall|i: int|
                1 <= i < r@.len() ==> block_in(dag.spec_blocks(), #[trigger] r@[i]),
            forall|i: int|
                1 <= i < r@.len() ==> (#[trigger] r@[i]).spec_block().round
                    < leader.spec_block().round,
            forall|i: int|
                1 <= i < r@.len() ==> (#[trigger] r@[i]).spec_block().round > committed_rounds@[
                    r@[i].spec_block().author as int],
    {
        let ghost size = committee.spec_size();
        let mut result: Vec<VerifiedBlock> = Vec::new();
        result.push(leader.clone());
        let mut work: Vec<BlockRef> = Vec::new();
        Self::push_uncommitted_ancestors(&mut work, leader, committed_rounds, committee);
        let mut round = leader.round();
        while round > 1
            invariant
                dag.wf(*committee),
                size == committee.spec_size(),
                committed_rounds@.len() == size,
                result@.len() >= 1,
                result@[0] == *leader,
                round <= leader.spec_block().round,
                forall|i: int|
                    1 <= i < result@.len() ==> block_in(dag.spec_blocks(), #[trigger] result@[i]),
                forall|i: int|
                    1 <= i < result@.len() ==> (#[trigger] result@[i]).spec_block().round
                        < leader.spec_block().round,
                forall|i: int|
                    1 <= i < result@.len() ==> (#[trigger] result@[i]).spec_block().round
                        > committed_rounds@[result@[i].spec_block().author as int],
                forall|i: int|
                    0 <= i < work@.len() ==> 1 <= (#[trigger] work@[i]).round < round,
                forall|i: int|
                    0 <= i < work@.len() ==> ((#[trigger] work@[i]).author as nat) < size,
                forall|i: int|
                    0 <= i < work@.len() ==> (#[trigger] work@[i]).round > committed_rounds@[
                        work@[i].author as int],
            decreases round,
        {
            let target = round - 1;
            let mut rest: Vec<BlockRef> = Vec::new();
            let mut at_round: Vec<BlockRef> = Vec::new();
            let mut w: usize = 0;
            while w < work.len()
                invariant
                    0 <= w <= work@.len(),
                    size == committee.spec_size(),
                    committed_rounds@.len() == size,
                    target >= 1,
                    forall|i: int|
                        0 <= i < work@.len() ==> 1 <= (#[trigger] work@[i]).round <= target,
                    forall|i: int|
                        0 <= i < work@.len() ==> ((#[trigger] work@[i]).author as nat) < size,
                    forall|i: int|
                        0 <= i < work@.len() ==> (#[trigger] work@[i]).round > committed_rounds@[
                            work@[i].author as int],
                    forall|i: int|
                        0 <= i < rest@.len() ==> 1 <= (#[trigger] rest@[i]).round < target,
                    forall|i: int|
                        0 <= i < rest@.len() ==> ((#[trigger] rest@[i]).author as nat) < size,
                    forall|i: int|
                        0 <= i < rest@.len() ==> (#[trigger] rest@[i]).round > committed_rounds@[
                            rest@[i].author as int],
                    forall|i: int|
                        0 <= i < at_round@.len() ==> (#[trigger] at_round@[i]).round == target,
                    forall|i: int|
                        0 <= i < at_round@.len() ==> ((#[trigger] at_round@[i]).author as nat)
                            < size,
                    forall|i: int|
                        0 <= i < at_round@.len() ==> (#[trigger] at_round@[i]).round
                            > committed_rounds@[at_round@[i].author as int],
                decreases work@.len() - w,
            {
                let item = work[w];
                if item.round == target {
                    at_round.push(item);
                } else {
                    rest.push(item);
                }
                w = w + 1;
            }
            work = rest;
            let mut a: usize = 0;
            while a < at_round.len()
                invariant
                    0 <= a <= at_round@.len(),
                    dag.wf(*committee),
                    size == committee.spec_size(),
                    committed_rounds@.len() == size,
                    target >= 1,
                    target < round,
                    round <= leader.spec_block().round,
                    result@.len() >= 1,
                    result@[0] == *leader,
                    forall|i: int|
                        1 <= i < result@.len() ==> block_in(
                            dag.spec_blocks(),
                            #[trigger] result@[i],
                        ),
                    forall|i: int|
                        1 <= i < result@.len() ==> (#[trigger] result@[i]).spec_block().round
                            < leader.spec_block().round,
                    forall|i: int|
                        1 <= i < result@.len() ==> (#[trigger] result@[i]).spec_block().round
                            > committed_rounds@[result@[i].spec_block().author as int],
                    forall|i: int|
                        0 <= i < at_round@.len() ==> (#[trigger] at_round@[i]).round == target,
                    forall|i: int|
                        0 <= i < at_round@.len() ==> ((#[trigger] at_round@[i]).author as nat)
                            < size,
                    forall|i: int|
                        0 <= i < at_round@.len() ==> (#[trigger] at_round@[i]).round
                            > committed_rounds@[at_round@[i].author as int],
                    forall|i: int|
                        0 <= i < work@.len() ==> 1 <= (#[trigger] work@[i]).round < target,
                    forall|i: int|
                        0 <= i < work@.len() ==> ((#[trigger] work@[i]).author as nat) < size,
                    forall|i: int|
                        0 <= i < work@.len() ==> (#[trigger] work@[i]).round > committed_rounds@[
                            work@[i].author as int],
                decreases at_round@.len() - a,
            {
                match dag.get_block(&at_round[a]) {
                    Some(block) => {
                        proof {
                            lemma_block_in_valid(dag.spec_blocks(), block, size);
                            assert(block.spec_block().round == at_round@[a as int].round);
                        }
                        Self::push_uncommitted_ancestors(
                            &mut work,
                            &block,
                            committed_rounds,
                            committee,
                        );
                        result.push(block);
                    },
                    None => {},
                }
                a = a + 1;
            }
            round = round - 1;
        }
        result
    }

    /// Append to `work` the ancestors of `b` that lie above the committed
    /// watermarks and are not there yet.
    fn push_uncommitted_ancestors(
        work: &mut Vec<BlockRef>,
        b: &VerifiedBlock,
        committed_rounds: &Vec<u32>,
        committee: &Committee,
    )
        requires
            valid_block(*b, committee.spec_size()),
            committed_rounds@.len() == committee.spec_size(),
            forall|i: int|
                0 <= i < old(work)@.len() ==> 1 <= (#[trigger] old(work)@[i]).round
                    < b.spec_block().round,
            forall|i: int|
                0 <= i < old(work)@.len() ==> ((#[trigger] old(work)@[i]).author as nat)
                    < committee.spec_size(),
            forall|i: int|
                0 <= i < old(work)@.len() ==> (#[trigger] old(work)@[i]).round > committed_rounds@[
                    old(work)@[i].author as int],
        ensures
            forall|i: int|
                0 <= i < final(work)@.len() ==> 1 <= (#[trigger] final(work)@[i]).round
                    < b.spec_block().round,
            forall|i: int|
                0 <= i < final(work)@.len() ==> ((#[trigger] final(work)@[i]).author as nat)
                    < committee.spec_size(),
            forall|i: int|
                0 <= i < final(work)@.len() ==> (#[trigger] final(work)@[i]).round
                    > committed_rounds@[final(work)@[i].author as int],
    {
        let ancestors = b.ancestors();
        let mut j: usize = 0;
        let m = ancestors.len();
        while j < m
            invariant
                0 <= j <= m,
                m == ancestors@.len(),
                ancestors@ == b.spec_block().ancestors@,
                valid_block(*b, committee.spec_size()),
                committed_rounds@.len() == committee.spec_size(),
                forall|i: int|
                    0 <= i < work@.len() ==> 1 <= (#[trigger] work@[i]).round
                        < b.spec_block().round,
                forall|i: int|
                    0 <= i < work@.len() ==> ((#[trigger] work@[i]).author as nat)
                        < committee.spec_size(),
                forall|i: int|
                    0 <= i < work@.len() ==> (#[trigger] work@[i]).round > committed_rounds@[
                        work@[i].author as int],
            decreases m - j,
        {
            let anc = ancestors[j];
            if anc.round >= 1 && anc.round > committed_rounds[anc.author as usize] {
                let mut present = false;
                let mut t: usize = 0;
                while t < work.len()
                    invariant
                        0 <= t <= work@.len(),
                    decreases work@.len() - t,
                {
                    if work[t] == anc {
                        present = true;
                    }
                    t = t + 1;
                }
                if !present {
                    work.push(anc);
                }
            }
            j = j + 1;
        }
    }

    /// Raise the committed-round watermark of every author of the sub-DAG.
    fn advance_committed_rounds(
        committed_rounds: &Vec<u32>,
        blocks: &Vec<VerifiedBlock>,
        committee: &Committee,
    ) -> (r: Vec<u32>)
        requires
            committed_rounds@.len() == committee.spec_size(),
        ensures
            r@.len() == committed_rounds@.len(),
            forall|a: int| 0 <= a < r@.len() ==> (#[trigger] r@[a]) >= committed_rounds@[a],
    {
        let mut out: Vec<u32> = Vec::new();
        let mut i: usize = 0;
        let n = committed_rounds.len();
        while i < n
            invariant
                0 <= i <= n,
                n == committed_rounds@.len(),
                out@.len() == i,
                forall|a: int| 0 <= a < i ==> (#[trigger] out@[a]) >= committed_rounds@[a],
            decreases n - i,
        {
            out.push(committed_rounds[i]);
            i = i + 1;
        }
        let mut b: usize = 0;
        let m = blocks.len();
        while b < m
            invariant
                0 <= b <= m,
                m == blocks@.len(),
                out@.len() == committed_rounds@.len(),
                forall|a: int| 0 <= a < out@.len() ==> (#[trigger] out@[a]) >= committed_rounds@[a],
            decreases m - b,
        {
            let author = blocks[b].author() as usize;
            if author < out.len() {
                if blocks[b].round() > out[author] {
                    let round = blocks[b].round();
                    out.set(author, round);
                }
            }
            b = b + 1;
        }
        out
    }
}

} // verus!
