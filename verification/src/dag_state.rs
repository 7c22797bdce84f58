//! In-memory view of the DAG: every accepted block, the last commit, and the
//! last committed round per authority, backed by the store.

use vstd::prelude::*;

use crate::block::{is_genesis_block, genesis_blocks, BlockRef, Slot, VerifiedBlock};
use crate::committee::{
    lemma_all_false_stake, lemma_all_true_stake, selected_stake, Committee, StakeAggregator,
};
use crate::storage::{CommitIndex, MemStore, TrustedCommit, WriteBatch};

verus! {

/// A block acceptable into the DAG: coherent wrapper, author in range, and
/// every ancestor strictly below the block's round with its author in range.
pub open spec fn valid_block(b: VerifiedBlock, n: nat) -> bool {
    &&& b.wf()
    &&& (b.spec_block().author as nat) < n
    &&& forall|j: int|
        0 <= j < b.spec_block().ancestors@.len() ==> (#[trigger] b.spec_block().ancestors@[j]).round
            < b.spec_block().round
    &&& forall|j: int|
        0 <= j < b.spec_block().ancestors@.len() ==> ((#[trigger] b.spec_block().ancestors@[j]).author
            as nat) < n
}

/// Whether a block with reference `r` is among `blocks`.
pub open spec fn ref_present(blocks: Seq<VerifiedBlock>, r: BlockRef) -> bool {
    exists|i: int| 0 <= i < blocks.len() && (#[trigger] blocks[i]).spec_reference() == r
}

/// Growing the block sequence keeps every reference present.
pub proof fn lemma_refs_preserved(before: Seq<VerifiedBlock>, after: Seq<VerifiedBlock>)
    requires
        before.len() <= after.len(),
        forall|i: int| 0 <= i < before.len() ==> after[i] == before[i],
    ensures
        forall|r: BlockRef| ref_present(before, r) ==> ref_present(after, r),
{
    assert forall|r: BlockRef| ref_present(before, r) implies ref_present(after, r) by {
        let w = choose|i: int| 0 <= i < before.len() && before[i].spec_reference() == r;
        assert(after[w].spec_reference() == r);
    }
}

/// Whether a genesis block of authority `a` is among `blocks`.
pub open spec fn has_genesis_for(blocks: Seq<VerifiedBlock>, epoch: u64, a: int) -> bool {
    exists|i: int| 0 <= i < blocks.len() && is_genesis_block(blocks[i], epoch, a)
}

/// No two blocks share a reference.
pub open spec fn refs_unique(blocks: Seq<VerifiedBlock>) -> bool {
    forall|i: int, j: int|
        0 <= i < j < blocks.len() ==> (#[trigger] blocks[i]).spec_reference() != (
        #[trigger] blocks[j]).spec_reference()
}

/// Two blocks of a duplicate-free sequence with the same reference are the
/// same block.
pub proof fn lemma_same_ref_same_block(
    blocks: Seq<VerifiedBlock>,
    b1: VerifiedBlock,
    b2: VerifiedBlock,
)
    requires
        refs_unique(blocks),
        block_in(blocks, b1),
        block_in(blocks, b2),
        b1.spec_reference() == b2.spec_reference(),
    ensures
        b1 == b2,
{
    let i = choose|i: int| 0 <= i < blocks.len() && blocks[i] == b1;
    let j = choose|j: int| 0 <= j < blocks.len() && blocks[j] == b2;
    if i != j {
        if i < j {
            assert(blocks[i].spec_reference() != blocks[j].spec_reference());
        } else {
            assert(blocks[j].spec_reference() != blocks[i].spec_reference());
        }
    }
}

/// Which authorities have a block at round `r`.
pub open spec fn authors_at_round(blocks: Seq<VerifiedBlock>, r: u32, n: nat) -> Seq<bool> {
    Seq::new(
        n,
        |a: int|
            exists|i: int|
                0 <= i < blocks.len() && (#[trigger] blocks[i]).spec_block().round == r
                    && blocks[i].spec_block().author == a,
    )
}

/// Whether `b` is one of `blocks`.
pub open spec fn block_in(blocks: Seq<VerifiedBlock>, b: VerifiedBlock) -> bool {
    exists|i: int| 0 <= i < blocks.len() && blocks[i] == b
}

/// A member of an all-valid block sequence is valid.
pub proof fn lemma_block_in_valid(blocks: Seq<VerifiedBlock>, b: VerifiedBlock, n: nat)
    requires
        block_in(blocks, b),
        forall|i: int| 0 <= i < blocks.len() ==> valid_block(#[trigger] blocks[i], n),
    ensures
        valid_block(b, n),
{
    let w = choose|i: int| 0 <= i < blocks.len() && blocks[i] == b;
    assert(valid_block(blocks[w], n));
}

/// Which authorities have a block at round `r` among the first `k` blocks.
pub open spec fn authors_at_round_prefix(
    blocks: Seq<VerifiedBlock>,
    r: u32,
    n: nat,
    k: int,
) -> Seq<bool> {
    Seq::new(
        n,
        |a: int|
            exists|i: int|
                0 <= i < k && i < blocks.len() && (#[trigger] blocks[i]).spec_block().round == r
                    && blocks[i].spec_block().author == a,
    )
}

/// Whether `b` is the highest-round block of authority `a` among `blocks`
/// with round at most `max_round`.
pub open spec fn is_last_block_up_to(
    blocks: Seq<VerifiedBlock>,
    a: int,
    max_round: u32,
    b: VerifiedBlock,
) -> bool {
    &&& block_in(blocks, b)
    &&& b.spec_block().author == a
    &&& b.spec_block().round <= max_round
    &&& forall|i: int|
        0 <= i < blocks.len() && (#[trigger] blocks[i]).spec_block().author == a
            && blocks[i].spec_block().round <= max_round ==> blocks[i].spec_block().round
            <= b.spec_block().round
}

/// Any two highest blocks of one authority at or below a round sit at the
/// same round.
pub proof fn lemma_last_block_round_agree(
    blocks: Seq<VerifiedBlock>,
    a: int,
    max_round: u32,
    b1: VerifiedBlock,
    b2: VerifiedBlock,
)
    requires
        is_last_block_up_to(blocks, a, max_round, b1),
        is_last_block_up_to(blocks, a, max_round, b2),
    ensures
        b1.spec_block().round == b2.spec_block().round,
{
    let w1 = choose|i: int| 0 <= i < blocks.len() && blocks[i] == b1;
    let w2 = choose|i: int| 0 <= i < blocks.len() && blocks[i] == b2;
    assert(blocks[w1].spec_block().round <= b2.spec_block().round);
    assert(blocks[w2].spec_block().round <= b1.spec_block().round);
}

/// One scan step extends the per-round author marks by at most the scanned
/// block's author.
pub proof fn lemma_authors_prefix_step(blocks: Seq<VerifiedBlock>, q: u32, n: nat, i: int)
    requires
        0 <= i < blocks.len(),
        (blocks[i].spec_block().author as nat) < n,
    ensures
        blocks[i].spec_block().round == q ==> authors_at_round_prefix(blocks, q, n, i + 1)
            =~= authors_at_round_prefix(blocks, q, n, i).update(
            blocks[i].spec_block().author as int,
            true,
        ),
        blocks[i].spec_block().round != q ==> authors_at_round_prefix(blocks, q, n, i + 1)
            =~= authors_at_round_prefix(blocks, q, n, i),
{
    let pre = authors_at_round_prefix(blocks, q, n, i);
    let post = authors_at_round_prefix(blocks, q, n, i + 1);
    if blocks[i].spec_block().round == q {
        let author = blocks[i].spec_block().author as int;
        assert forall|a: int| 0 <= a < n implies post[a] == pre.update(author, true)[a] by {
            if a == author {
                assert(post[a]) by {
                    assert(0 <= i < i + 1 && blocks[i].spec_block().round == q
                        && blocks[i].spec_block().author == a);
                }
            } else {
                if post[a] {
                    let w = choose|w: int|
                        0 <= w < i + 1 && w < blocks.len() && (#[trigger] blocks[w]).spec_block().round
                            == q && blocks[w].spec_block().author == a;
                    assert(w < i);
                    assert(pre[a]);
                }
                if pre[a] {
                    let w = choose|w: int|
                        0 <= w < i && w < blocks.len() && (#[trigger] blocks[w]).spec_block().round
                            == q && blocks[w].spec_block().author == a;
                    assert(post[a]);
                }
            }
        }
    } else {
        assert forall|a: int| 0 <= a < n implies post[a] == pre[a] by {
            if post[a] {
                let w = choose|w: int|
                    0 <= w < i + 1 && w < blocks.len() && (#[trigger] blocks[w]).spec_block().round
                        == q && blocks[w].spec_block().author == a;
                assert(w < i);
                assert(pre[a]);
            }
            if pre[a] {
                let w = choose|w: int|
                    0 <= w < i && w < blocks.len() && (#[trigger] blocks[w]).spec_block().round == q
                        && blocks[w].spec_block().author == a;
                assert(post[a]);
            }
        }
    }
}

/// Above the highest accepted round no round has any block, hence no quorum.
pub proof fn lemma_no_quorum_above(blocks: Seq<VerifiedBlock>, committee: Committee, h: u32)
    requires
        committee.wf(),
        forall|i: int|
            0 <= i < blocks.len() ==> (#[trigger] blocks[i]).spec_block().round <= h,
    ensures
        forall|q2: u32| q2 > h ==> !round_has_quorum(blocks, q2, committee),
{
    committee.wf_facts();
    assert forall|q2: u32| q2 > h implies !round_has_quorum(blocks, q2, committee) by {
        let marks = authors_at_round(blocks, q2, committee.spec_size());
        assert forall|a: int| 0 <= a < marks.len() implies !marks[a] by {
            if marks[a] {
                let w = choose|i: int|
                    0 <= i < blocks.len() && (#[trigger] blocks[i]).spec_block().round == q2
                        && blocks[i].spec_block().author == a;
                assert(blocks[w].spec_block().round <= h);
            }
        }
        lemma_all_false_stake(marks, committee.spec_stakes());
    }
}

/// Whether the blocks at round `r` carry a quorum of stake.
pub open spec fn round_has_quorum(blocks: Seq<VerifiedBlock>, r: u32, committee: Committee) -> bool {
    selected_stake(authors_at_round(blocks, r, committee.spec_size()), committee.spec_stakes())
        >= committee.spec_quorum_threshold()
}

/// What `last_quorum` returns: all blocks of the highest round whose authors
/// reach quorum.
pub open spec fn is_last_quorum(
    blocks: Seq<VerifiedBlock>,
    committee: Committee,
    q: u32,
    result: Seq<VerifiedBlock>,
) -> bool {
    &&& result == blocks.filter(|b: VerifiedBlock| b.spec_block().round == q)
    &&& round_has_quorum(blocks, q, committee)
    &&& forall|q2: u32| q2 > q ==> !round_has_quorum(blocks, q2, committee)
}

/// Growing the block sequence keeps every genesis block present.
pub proof fn lemma_genesis_preserved(
    before: Seq<VerifiedBlock>,
    after: Seq<VerifiedBlock>,
    epoch: u64,
    n: int,
)
    requires
        before.len() <= after.len(),
        forall|i: int| 0 <= i < before.len() ==> after[i] == before[i],
    ensures
        forall|a: int|
            0 <= a < n && has_genesis_for(before, epoch, a) ==> has_genesis_for(after, epoch, a),
{
    assert forall|a: int|
        0 <= a < n && has_genesis_for(before, epoch, a) implies has_genesis_for(
        after,
        epoch,
        a,
    ) by {
        let w = choose|i: int| 0 <= i < before.len() && is_genesis_block(before[i], epoch, a);
        assert(is_genesis_block(after[w], epoch, a));
    }
}

/// The in-memory DAG state of one core.
pub struct DagState {
    num_authorities: usize,
    epoch: u64,
    blocks: Vec<VerifiedBlock>,
    last_commit: Option<TrustedCommit>,
    last_committed_rounds: Vec<u32>,
    store: MemStore,
}

impl DagState {
    pub closed spec fn spec_blocks(&self) -> Seq<VerifiedBlock> {
        self.blocks@
    }

    pub closed spec fn spec_num_authorities(&self) -> nat {
        self.num_authorities as nat
    }

    pub closed spec fn spec_last_commit(&self) -> Option<TrustedCommit> {
        self.last_commit
    }

    pub closed spec fn spec_last_committed_rounds(&self) -> Seq<u32> {
        self.last_committed_rounds@
    }

    pub closed spec fn spec_store(&self) -> MemStore {
        self.store
    }

    pub open spec fn wf(&self, committee: Committee) -> bool {
        &&& committee.wf()
        &&& self.spec_num_authorities() == committee.spec_size()
        &&& self.spec_last_committed_rounds().len() == committee.spec_size()
        &&& forall|i: int|
            0 <= i < self.spec_blocks().len() ==> valid_block(
                #[trigger] self.spec_blocks()[i],
                committee.spec_size(),
            )
        &&& forall|a: int|
            0 <= a < committee.spec_size() ==> has_genesis_for(
                self.spec_blocks(),
                committee.spec_epoch(),
                a,
            )
        &&& refs_unique(self.spec_blocks())
        &&& self.spec_store().wf()
    }

    pub open spec fn contains_ref(&self, r: BlockRef) -> bool {
        ref_present(self.spec_blocks(), r)
    }

    pub open spec fn contains_slot(&self, s: Slot) -> bool {
        exists|i: int|
            0 <= i < self.spec_blocks().len() && (#[trigger] self.spec_blocks()[i]).spec_block().round
                == s.round && self.spec_blocks()[i].spec_block().author == s.authority
    }

    /// Build the DAG state from the store: the genesis set is always present;
    /// every structurally valid stored block is adopted; the last commit and
    /// the committed-round watermarks are read back.
    pub fn new(committee: &Committee, store: MemStore) -> (r: DagState)
        requires
            committee.wf(),
            store.wf(),
        ensures
            r.wf(*committee),
            r.spec_store() == store,
            forall|j: int|
                0 <= j < store.spec_blocks().len() && valid_block(
                    #[trigger] store.spec_blocks()[j],
                    committee.spec_size(),
                ) ==> r.contains_ref(store.spec_blocks()[j].spec_reference()),
            r.spec_last_commit() == if store.spec_commits().len() > 0 {
                Some(store.spec_commits().last())
            } else {
                None::<TrustedCommit>
            },
    {
        proof {
            committee.wf_facts();
        }
        let n = committee.size();
        let mut blocks = genesis_blocks(committee);
        proof {
            assert forall|a: int| 0 <= a < committee.spec_size() implies has_genesis_for(
                blocks@,
                committee.spec_epoch(),
                a,
            ) by {
                assert(is_genesis_block(blocks@[a], committee.spec_epoch(), a));
            }
            assert(forall|i: int|
                0 <= i < blocks@.len() ==> valid_block(#[trigger] blocks@[i], committee.spec_size()));
            assert forall|i: int, j: int| 0 <= i < j < blocks@.len() implies (
            #[trigger] blocks@[i]).spec_reference() != (#[trigger] blocks@[j]).spec_reference() by {
                assert(blocks@[i].spec_block().author == i);
                assert(blocks@[j].spec_block().author == j);
            }
        }
        let stored = store.get_all_blocks();
        let mut j: usize = 0;
        let m = stored.len();
        while j < m
            invariant
                0 <= j <= m,
                m == stored@.len(),
                committee.wf(),
                n == committee.spec_size(),
                stored@ == store.spec_blocks(),
                store.wf(),
                forall|i: int|
                    0 <= i < blocks@.len() ==> valid_block(
                        #[trigger] blocks@[i],
                        committee.spec_size(),
                    ),
                forall|a: int|
                    0 <= a < committee.spec_size() ==> has_genesis_for(
                        blocks@,
                        committee.spec_epoch(),
                        a,
                    ),
                forall|k: int|
                    0 <= k < j && valid_block(#[trigger] stored@[k], committee.spec_size())
                        ==> ref_present(blocks@, stored@[k].spec_reference()),
                refs_unique(blocks@),
            decreases m - j,
        {
            let ghost old_blocks = blocks@;
            let b = stored[j].clone();
            if Self::check_structure(&b, n) {
                let already = Self::ref_in(&blocks, &b.reference());
                if !already {
                    blocks.push(b);
                    proof {
                        assert(blocks@[blocks@.len() - 1].spec_reference()
                            == stored@[j as int].spec_reference());
                        assert forall|i1: int, j1: int| 0 <= i1 < j1 < blocks@.len() implies (
                        #[trigger] blocks@[i1]).spec_reference() != (
                        #[trigger] blocks@[j1]).spec_reference() by {
                            if j1 == blocks@.len() - 1 {
                                assert(old_blocks[i1].spec_reference() != blocks@[
                                    j1].spec_reference());
                            }
                        }
                    }
                }
                proof {
                    assert(ref_present(blocks@, stored@[j as int].spec_reference()));
                }
            }
            proof {
                assert(forall|i: int|
                    0 <= i < old_blocks.len() ==> blocks@[i] == old_blocks[i]);
                lemma_genesis_preserved(
                    old_blocks,
                    blocks@,
                    committee.spec_epoch(),
                    committee.spec_size() as int,
                );
                lemma_refs_preserved(old_blocks, blocks@);
            }
            j = j + 1;
        }
        let last_commit = match store.read_last_commit() {
            Ok(c) => c,
            Err(_) => None,
        };
        let last_committed_rounds = match store.read_last_commit_info() {
            Ok(Some(rounds)) => {
                if rounds.len() == n {
                    rounds
                } else {
                    Self::zero_rounds(n)
                }
            },
            Ok(None) => Self::zero_rounds(n),
            Err(_) => Self::zero_rounds(n),
        };
        DagState {
            num_authorities: n,
            epoch: committee.epoch(),
            blocks,
            last_commit,
            last_committed_rounds,
            store,
        }
    }

    fn zero_rounds(n: usize) -> (r: Vec<u32>)
        ensures
            r@.len() == n,
            forall|i: int| 0 <= i < n ==> r@[i] == 0,
    {
        let mut out: Vec<u32> = Vec::new();
        let mut i: usize = 0;
        while i < n
            invariant
                0 <= i <= n,
                out@.len() == i,
                forall|k: int| 0 <= k < i ==> out@[k] == 0,
            decreases n - i,
        {
            out.push(0);
            i = i + 1;
        }
        out
    }

    /// Runtime check of the structural part of `valid_block`; the wrapper
    /// coherence is an invariant of every path a block arrives by.
    pub(crate) fn check_structure(b: &VerifiedBlock, n: usize) -> (r: bool)
        requires
            b.wf(),
        ensures
            r == valid_block(*b, n as nat),
    {
        if !((b.author() as usize) < n) {
            return false;
        }
        let ancestors = b.ancestors();
        let round = b.round();
        let mut i: usize = 0;
        let m = ancestors.len();
        while i < m
            invariant
                0 <= i <= m,
                m == ancestors@.len(),
                ancestors@ == b.spec_block().ancestors@,
                round == b.spec_block().round,
                forall|k: int|
                    0 <= k < i ==> (#[trigger] ancestors@[k]).round < round && (ancestors@[k].author
                        as usize) < n,
            decreases m - i,
        {
            if !(ancestors[i].round < round) {
                return false;
            }
            if !((ancestors[i].author as usize) < n) {
                return false;
            }
            i = i + 1;
        }
        true
    }

    fn ref_in(blocks: &Vec<VerifiedBlock>, r: &BlockRef) -> (res: bool)
        ensures
            res == exists|i: int|
                0 <= i < blocks@.len() && (#[trigger] blocks@[i]).spec_reference() == *r,
    {
        let mut i: usize = 0;
        let n = blocks.len();
        while i < n
            invariant
                0 <= i <= n,
                n == blocks@.len(),
                forall|k: int| 0 <= k < i ==> (#[trigger] blocks@[k]).spec_reference() != *r,
            decreases n - i,
        {
            let candidate = blocks[i].reference();
            if candidate == *r {
                return true;
            }
            i = i + 1;
        }
        false
    }

    /// Whether some accepted block sits at the given slot.
    pub fn contains_block_at_slot(&self, slot: Slot) -> (r: bool)
        ensures
            r == self.contains_slot(slot),
    {
        let mut i: usize = 0;
        let n = self.blocks.len();
        while i < n
            invariant
                0 <= i <= n,
                n == self.spec_blocks().len(),
                forall|k: int|
                    0 <= k < i ==> !((#[trigger] self.spec_blocks()[k]).spec_block().round
                        == slot.round && self.spec_blocks()[k].spec_block().author
                        == slot.authority),
            decreases n - i,
        {
            if self.blocks[i].round() == slot.round && self.blocks[i].author() == slot.authority {
                return true;
            }
            i = i + 1;
        }
        false
    }

    /// Number of accepted blocks.
    pub fn blocks_len(&self) -> (r: usize)
        ensures
            r == self.spec_blocks().len(),
    {
        self.blocks.len()
    }

    /// The `i`-th accepted block, in acceptance order.
    pub fn block_at(&self, i: usize) -> (r: VerifiedBlock)
        requires
            i < self.spec_blocks().len(),
        ensures
            r == self.spec_blocks()[i as int],
    {
        self.blocks[i].clone()
    }

    /// The accepted block with the given reference, if any.
    pub fn get_block(&self, r: &BlockRef) -> (res: Option<VerifiedBlock>)
        ensures
            match res {
                Some(b) => block_in(self.spec_blocks(), b) && b.spec_reference() == *r,
                None => !self.contains_ref(*r),
            },
    {
        let mut i: usize = 0;
        let n = self.blocks.len();
        while i < n
            invariant
                0 <= i <= n,
                n == self.spec_blocks().len(),
                forall|k: int| 0 <= k < i ==> (#[trigger] self.spec_blocks()[k]).spec_reference() != *r,
            decreases n - i,
        {
            let candidate = self.blocks[i].reference();
            if candidate == *r {
                let b = self.blocks[i].clone();
                proof {
                    assert(block_in(self.spec_blocks(), b));
                }
                return Some(b);
            }
            i = i + 1;
        }
        None
    }

    /// Whether a block with the given reference has been accepted.
    pub fn contains_block_ref(&self, r: &BlockRef) -> (res: bool)
        ensures
            res == self.contains_ref(*r),
    {
        Self::ref_in(&self.blocks, r)
    }

    /// The highest round of any accepted block.
    pub fn highest_accepted_round(&self, committee: &Committee) -> (r: u32)
        requires
            self.wf(*committee),
        ensures
            forall|i: int|
                0 <= i < self.spec_blocks().len() ==> (#[trigger] self.spec_blocks()[i]).spec_block().round
                    <= r,
            exists|i: int|
                0 <= i < self.spec_blocks().len() && (#[trigger] self.spec_blocks()[i]).spec_block().round
                    == r,
    {
        proof {
            committee.wf_facts();
            assert(has_genesis_for(self.spec_blocks(), committee.spec_epoch(), 0));
        }
        let mut best: u32 = 0;
        let ghost witness: int = choose|i: int|
            0 <= i < self.spec_blocks().len() && is_genesis_block(
                self.spec_blocks()[i],
                committee.spec_epoch(),
                0,
            );
        let mut i: usize = 0;
        let n = self.blocks.len();
        while i < n
            invariant
                0 <= i <= n,
                n == self.spec_blocks().len(),
                forall|k: int|
                    0 <= k < i ==> (#[trigger] self.spec_blocks()[k]).spec_block().round <= best,
                best == 0 || exists|k: int|
                    0 <= k < i && (#[trigger] self.spec_blocks()[k]).spec_block().round == best,
                0 <= witness < n,
                self.spec_blocks()[witness].spec_block().round == 0,
            decreases n - i,
        {
            if self.blocks[i].round() > best {
                best = self.blocks[i].round();
            }
            i = i + 1;
        }
        best
    }

    /// The last commit observed, if any.
    pub fn last_commit(&self) -> (r: Option<TrustedCommit>)
        ensures
            r == self.spec_last_commit(),
    {
        match &self.last_commit {
            Some(c) => Some(c.clone()),
            None => None,
        }
    }

    /// The slot of the leader of the last commit, or the genesis slot of
    /// authority zero when nothing has been committed.
    pub fn last_commit_leader(&self) -> (r: Slot)
        ensures
            r == match self.spec_last_commit() {
                Some(c) => Slot { round: c.spec_leader().round, authority: c.spec_leader().author },
                None => Slot { round: 0, authority: 0 },
            },
    {
        match &self.last_commit {
            Some(c) => {
                let leader = c.leader();
                Slot { round: leader.round, authority: leader.author }
            },
            None => Slot { round: 0, authority: 0 },
        }
    }

    /// The index of the last commit, or zero.
    pub open spec fn spec_last_commit_index(&self) -> CommitIndex {
        match self.spec_last_commit() {
            Some(c) => c.spec_index(),
            None => 0,
        }
    }

    /// The index of the last commit, or zero.
    pub fn last_commit_index(&self) -> (r: CommitIndex)
        ensures
            r == self.spec_last_commit_index(),
    {
        match &self.last_commit {
            Some(c) => c.index(),
            None => 0,
        }
    }

    /// The last committed round of every authority.
    pub fn last_committed_rounds(&self) -> (r: &Vec<u32>)
        ensures
            r@ == self.spec_last_committed_rounds(),
    {
        &self.last_committed_rounds
    }

    pub fn store(&self) -> (r: &MemStore)
        ensures
            *r == self.spec_store(),
    {
        &self.store
    }

    /// The highest-round block of `authority` with round at most `max_round`;
    /// the genesis block guarantees one exists.
    #[verifier::rlimit(50)]
    pub fn get_last_block_up_to(
        &self,
        authority: u32,
        max_round: u32,
        committee: &Committee,
    ) -> (r: VerifiedBlock)
        requires
            self.wf(*committee),
            (authority as int) < committee.spec_size(),
        ensures
            is_last_block_up_to(self.spec_blocks(), authority as int, max_round, r),
            r.wf(),
    {
        proof {
            assert(has_genesis_for(self.spec_blocks(), committee.spec_epoch(), authority as int));
        }
        let ghost gw: int = choose|i: int|
            0 <= i < self.spec_blocks().len() && is_genesis_block(
                self.spec_blocks()[i],
                committee.spec_epoch(),
                authority as int,
            );
        let mut found: bool = false;
        let mut best: usize = 0;
        let mut i: usize = 0;
        let n = self.blocks.len();
        while i < n
            invariant
                0 <= i <= n,
                n == self.spec_blocks().len(),
                self.wf(*committee),
                0 <= gw < n,
                self.spec_blocks()[gw].spec_block().author == authority,
                self.spec_blocks()[gw].spec_block().round == 0,
                found ==> best < i && self.spec_blocks()[best as int].spec_block().author
                    == authority && self.spec_blocks()[best as int].spec_block().round <= max_round,
                found ==> forall|k: int|
                    0 <= k < i && (#[trigger] self.spec_blocks()[k]).spec_block().author
                        == authority && self.spec_blocks()[k].spec_block().round <= max_round
                        ==> self.spec_blocks()[k].spec_block().round <= self.spec_blocks()[best as int].spec_block().round,
                !found ==> forall|k: int|
                    0 <= k < i ==> !((#[trigger] self.spec_blocks()[k]).spec_block().author
                        == authority && self.spec_blocks()[k].spec_block().round <= max_round),
            decreases n - i,
        {
            if self.blocks[i].author() == authority && self.blocks[i].round() <= max_round {
                if !found {
                    found = true;
                    best = i;
                } else {
                    if self.blocks[i].round() > self.blocks[best].round() {
                        best = i;
                    }
                }
            }
            i = i + 1;
        }
        proof {
            assert(found);
        }
        let r = self.blocks[best].clone();
        proof {
            assert(block_in(self.spec_blocks(), r));
        }
        r
    }

    /// The highest-round block of `authority`, the genesis sentinel if it has
    /// proposed nothing yet.
    pub fn get_last_block_for_authority(&self, authority: u32, committee: &Committee) -> (r:
        VerifiedBlock)
        requires
            self.wf(*committee),
            (authority as int) < committee.spec_size(),
        ensures
            is_last_block_up_to(self.spec_blocks(), authority as int, u32::MAX, r),
            r.wf(),
    {
        self.get_last_block_up_to(authority, u32::MAX, committee)
    }

    /// The highest-round known block per authority with round at most
    /// `max_round`, indexed by authority.
    pub fn get_last_block_per_authority(&self, max_round: u32, committee: &Committee) -> (r: Vec<
        VerifiedBlock,
    >)
        requires
            self.wf(*committee),
        ensures
            r@.len() == committee.spec_size(),
            forall|a: int|
                0 <= a < committee.spec_size() ==> is_last_block_up_to(
                    self.spec_blocks(),
                    a,
                    max_round,
                    #[trigger] r@[a],
                ),
            forall|a: int| 0 <= a < committee.spec_size() ==> (#[trigger] r@[a]).wf(),
    {
        let n = committee.size();
        let mut out: Vec<VerifiedBlock> = Vec::new();
        let mut a: usize = 0;
        while a < n
            invariant
                0 <= a <= n,
                n == committee.spec_size(),
                self.wf(*committee),
                out@.len() == a,
                forall|k: int|
                    0 <= k < a ==> is_last_block_up_to(
                        self.spec_blocks(),
                        k,
                        max_round,
                        #[trigger] out@[k],
                    ),
                forall|k: int| 0 <= k < a ==> (#[trigger] out@[k]).wf(),
            decreases n - a,
        {
            proof {
                committee.wf_facts();
            }
            let b = self.get_last_block_up_to(a as u32, max_round, committee);
            out.push(b);
            a = a + 1;
        }
        out
    }

    /// The most recent round whose blocks form a stake quorum, with all the
    /// blocks of that round. The genesis round always qualifies, so the
    /// search terminates.
    pub fn last_quorum(&self, committee: &Committee) -> (r: Vec<VerifiedBlock>)
        requires
            self.wf(*committee),
        ensures
            exists|q: u32| is_last_quorum(self.spec_blocks(), *committee, q, r@),
            forall|i: int| 0 <= i < r@.len() ==> valid_block(#[trigger] r@[i], committee.spec_size()),
    {
        proof {
            committee.wf_facts();
        }
        let h = self.highest_accepted_round(committee);
        let threshold = committee.quorum_threshold();
        proof {
            lemma_no_quorum_above(self.spec_blocks(), *committee, h);
        }
        let mut q = h;
        loop
            invariant
                self.wf(*committee),
                threshold == committee.spec_quorum_threshold(),
                q <= h,
                forall|q2: u32|
                    q2 > q ==> !round_has_quorum(self.spec_blocks(), q2, *committee),
            decreases q,
        {
            let (reached, found) = self.collect_round(q, threshold, committee);
            if reached {
                proof {
                    let chosen_q = q;
                    assert(is_last_quorum(self.spec_blocks(), *committee, chosen_q, found@));
                }
                return found;
            }
            proof {
                committee.wf_facts();
                if q == 0 {
                    assert forall|a: int|
                        0 <= a < committee.spec_size() implies authors_at_round(
                        self.spec_blocks(),
                        0,
                        committee.spec_size(),
                    )[a] by {
                        assert(has_genesis_for(self.spec_blocks(), committee.spec_epoch(), a));
                        let w = choose|i: int|
                            0 <= i < self.spec_blocks().len() && is_genesis_block(
                                self.spec_blocks()[i],
                                committee.spec_epoch(),
                                a,
                            );
                        assert(self.spec_blocks()[w].spec_block().round == 0
                            && self.spec_blocks()[w].spec_block().author == a);
                    }
                    lemma_all_true_stake(
                        authors_at_round(self.spec_blocks(), 0, committee.spec_size()),
                        committee.spec_stakes(),
                    );
                    assert(round_has_quorum(self.spec_blocks(), 0, *committee));
                    assert(false);
                }
            }
            q = q - 1;
        }
    }

    /// Collect all blocks at round `q` and report whether their authors'
    /// stake reaches `threshold`.
    fn collect_round(&self, q: u32, threshold: u64, committee: &Committee) -> (r: (bool, Vec<
        VerifiedBlock,
    >))
        requires
            self.wf(*committee),
            threshold == committee.spec_quorum_threshold(),
        ensures
            r.1@ == self.spec_blocks().filter(|b: VerifiedBlock| b.spec_block().round == q),
            r.0 == round_has_quorum(self.spec_blocks(), q, *committee),
            forall|i: int|
                0 <= i < r.1@.len() ==> valid_block(#[trigger] r.1@[i], committee.spec_size()),
    {
        proof {
            committee.wf_facts();
        }
        let ghost size = committee.spec_size();
        let mut agg = StakeAggregator::new(committee);
        let mut found: Vec<VerifiedBlock> = Vec::new();
        let mut i: usize = 0;
        let n = self.blocks.len();
        proof {
            assert(self.spec_blocks().take(0).filter(|b: VerifiedBlock| b.spec_block().round == q)
                =~= Seq::<VerifiedBlock>::empty());
            assert(agg.spec_included() =~= authors_at_round_prefix(self.spec_blocks(), q, size, 0));
        }
        while i < n
            invariant
                0 <= i <= n,
                n == self.spec_blocks().len(),
                self.wf(*committee),
                size == committee.spec_size(),
                agg.wf(*committee),
                agg.spec_included() =~= authors_at_round_prefix(
                    self.spec_blocks(),
                    q,
                    size,
                    i as int,
                ),
                found@ =~= self.spec_blocks().take(i as int).filter(
                    |b: VerifiedBlock| b.spec_block().round == q,
                ),
                forall|k: int|
                    0 <= k < found@.len() ==> valid_block(#[trigger] found@[k], size),
            decreases n - i,
        {
            let ghost pre_included = agg.spec_included();
            proof {
                assert(self.spec_blocks().take(i + 1).drop_last() =~= self.spec_blocks().take(
                    i as int,
                ));
                reveal_with_fuel(Seq::filter, 2);
                assert(valid_block(self.spec_blocks()[i as int], size));
            }
            if self.blocks[i].round() == q {
                let author = self.blocks[i].author();
                let _ = agg.add(author, committee, threshold);
                found.push(self.blocks[i].clone());
                proof {
                    lemma_authors_prefix_step(self.spec_blocks(), q, size, i as int);
                }
            } else {
                proof {
                    lemma_authors_prefix_step(self.spec_blocks(), q, size, i as int);
                }
            }
            i = i + 1;
        }
        proof {
            assert(self.spec_blocks().take(n as int) =~= self.spec_blocks());
            assert(agg.spec_included() =~= authors_at_round(self.spec_blocks(), q, size));
        }
        let reached = agg.stake(committee) >= threshold;
        (reached, found)
    }

    /// Accept one block into the DAG.
    pub fn accept_block(&mut self, b: VerifiedBlock, committee: &Committee)
        requires
            old(self).wf(*committee),
            valid_block(b, committee.spec_size()),
            !old(self).contains_ref(b.spec_reference()),
        ensures
            final(self).wf(*committee),
            final(self).spec_blocks() == old(self).spec_blocks().push(b),
            final(self).spec_last_commit() == old(self).spec_last_commit(),
            final(self).spec_last_committed_rounds() == old(self).spec_last_committed_rounds(),
            final(self).spec_store() == old(self).spec_store(),
    {
        let ghost old_blocks = self.blocks@;
        self.blocks.push(b);
        proof {
            assert(forall|i: int| 0 <= i < old_blocks.len() ==> self.blocks@[i] == old_blocks[i]);
            lemma_genesis_preserved(
                old_blocks,
                self.blocks@,
                committee.spec_epoch(),
                committee.spec_size() as int,
            );
            assert forall|i: int| 0 <= i < self.blocks@.len() implies valid_block(
                #[trigger] self.blocks@[i],
                committee.spec_size(),
            ) by {
                if i < old_blocks.len() {
                    assert(valid_block(old(self).spec_blocks()[i], committee.spec_size()));
                } else {
                    assert(self.blocks@[i] == b);
                }
            }
            assert forall|i1: int, j1: int| 0 <= i1 < j1 < self.blocks@.len() implies (
            #[trigger] self.blocks@[i1]).spec_reference() != (
            #[trigger] self.blocks@[j1]).spec_reference() by {
                if j1 == self.blocks@.len() - 1 {
                    assert(!ref_present(old_blocks, b.spec_reference()));
                    assert(old_blocks[i1].spec_reference() != b.spec_reference());
                } else {
                    assert(old(self).spec_blocks()[i1].spec_reference() != old(
                        self,
                    ).spec_blocks()[j1].spec_reference());
                }
            }
        }
    }

    /// Record one commit: replaces the last commit and the committed-round
    /// watermarks, and persists the commit to the store.
    pub fn add_commit(&mut self, commit: TrustedCommit, rounds: Vec<u32>, committee: &Committee)
        requires
            old(self).wf(*committee),
            rounds@.len() == committee.spec_size(),
        ensures
            final(self).wf(*committee),
            final(self).spec_blocks() == old(self).spec_blocks(),
            final(self).spec_last_commit() == Some(commit),
            final(self).spec_last_committed_rounds() == rounds@,
            final(self).spec_store().spec_commits() == old(self).spec_store().spec_commits().push(
                commit,
            ),
            final(self).spec_store().spec_blocks() == old(self).spec_store().spec_blocks(),
    {
        let mut commits: Vec<TrustedCommit> = Vec::new();
        commits.push(commit.clone());
        let mut rounds_copy: Vec<u32> = Vec::new();
        let mut i: usize = 0;
        let n = rounds.len();
        while i < n
            invariant
                0 <= i <= n,
                n == rounds@.len(),
                rounds_copy@ =~= rounds@.take(i as int),
            decreases n - i,
        {
            proof {
                assert(rounds@.take(i + 1).drop_last() =~= rounds@.take(i as int));
            }
            rounds_copy.push(rounds[i]);
            i = i + 1;
        }
        proof {
            assert(rounds@.take(n as int) =~= rounds@);
        }
        let batch = WriteBatch::new(Vec::new(), commits, rounds_copy);
        let ghost old_commits = self.store.spec_commits();
        let _ = self.store.write(batch);
        proof {
            assert(self.store.spec_commits() =~= old_commits.push(commit));
        }
        self.last_commit = Some(commit);
        self.last_committed_rounds = rounds;
        proof {
            assert forall|i: int| 0 <= i < self.spec_blocks().len() implies valid_block(
                #[trigger] self.spec_blocks()[i],
                committee.spec_size(),
            ) by {
                assert(valid_block(old(self).spec_blocks()[i], committee.spec_size()));
            }
            lemma_genesis_preserved(
                old(self).spec_blocks(),
                self.spec_blocks(),
                committee.spec_epoch(),
                committee.spec_size() as int,
            );
        }
    }
}

} // verus!
