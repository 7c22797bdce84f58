//! Acceptance of externally received blocks: a block is accepted once its
//! whole causal history is present; otherwise it is suspended and its unknown
//! parents are reported as missing.

use vstd::prelude::*;

use crate::block::{BlockRef, VerifiedBlock};
use crate::committee::Committee;
use crate::dag_state::{ref_present, valid_block, DagState};
use crate::error::{ConsensusError, ConsensusResult};

verus! {

/// Some ancestor of `b` has no accepted block among `blocks`.
pub open spec fn has_absent_ancestor(blocks: Seq<VerifiedBlock>, b: VerifiedBlock) -> bool {
    exists|j: int|
        0 <= j < b.spec_block().ancestors@.len() && !ref_present(
            blocks,
            #[trigger] b.spec_block().ancestors@[j],
        )
}

/// Pushing onto a sequence keeps every element already contained.
proof fn lemma_push_keeps_contains<T>(s: Seq<T>, v: T, x: T)
    requires
        s.contains(x),
    ensures
        s.push(v).contains(x),
{
    let w = choose|w: int| 0 <= w < s.len() && s[w] == x;
    assert(s.push(v)[w] == x);
}

/// Tracks suspended blocks and the references they are waiting for.
pub struct BlockManager {
    suspended: Vec<VerifiedBlock>,
    missing: Vec<BlockRef>,
}

impl BlockManager {
    pub closed spec fn spec_suspended(&self) -> Seq<VerifiedBlock> {
        self.suspended@
    }

    pub closed spec fn spec_missing(&self) -> Seq<BlockRef> {
        self.missing@
    }

    pub open spec fn wf(&self, committee: Committee) -> bool {
        forall|i: int|
            0 <= i < self.spec_suspended().len() ==> valid_block(
                #[trigger] self.spec_suspended()[i],
                committee.spec_size(),
            )
    }

    pub fn new() -> (r: BlockManager)
        ensures
            r.spec_suspended().len() == 0,
            r.spec_missing().len() == 0,
            forall|c: Committee| r.wf(c),
    {
        BlockManager { suspended: Vec::new(), missing: Vec::new() }
    }

    /// Whether every ancestor of `b` has been accepted.
    fn all_ancestors_present(dag: &DagState, b: &VerifiedBlock) -> (r: bool)
        ensures
            r == forall|j: int|
                0 <= j < b.spec_block().ancestors@.len() ==> dag.contains_ref(
                    #[trigger] b.spec_block().ancestors@[j],
                ),
    {
        let ancestors = b.ancestors();
        let mut j: usize = 0;
        let m = ancestors.len();
        while j < m
            invariant
                0 <= j <= m,
                m == ancestors@.len(),
                ancestors@ == b.spec_block().ancestors@,
                forall|k: int| 0 <= k < j ==> dag.contains_ref(#[trigger] ancestors@[k]),
            decreases m - j,
        {
            if !dag.contains_block_ref(&ancestors[j]) {
                return false;
            }
            j = j + 1;
        }
        true
    }

    fn ref_vec_contains(v: &Vec<BlockRef>, r: &BlockRef) -> (res: bool)
        ensures
            res == v@.contains(*r),
    {
        let mut i: usize = 0;
        let n = v.len();
        while i < n
            invariant
                0 <= i <= n,
                n == v@.len(),
                forall|k: int| 0 <= k < i ==> v@[k] != *r,
            decreases n - i,
        {
            if v[i] == *r {
                proof {
                    assert(v@[i as int] == *r);
                }
                return true;
            }
            i = i + 1;
        }
        false
    }

    /// Try to accept the given blocks, plus any earlier suspended blocks
    /// whose causal history has meanwhile arrived.
    ///
    /// On success returns the newly accepted blocks, in acceptance order, and
    /// the references that are still unknown. A structurally invalid block
    /// fails the whole batch and changes nothing.
    pub fn try_accept_blocks(
        &mut self,
        blocks: Vec<VerifiedBlock>,
        dag: &mut DagState,
        committee: &Committee,
    ) -> (r: ConsensusResult<(Vec<VerifiedBlock>, Vec<BlockRef>)>)
        requires
            old(self).wf(*committee),
            old(dag).wf(*committee),
            forall|i: int| 0 <= i < blocks@.len() ==> (#[trigger] blocks@[i]).wf(),
        ensures
            final(self).wf(*committee),
            final(dag).wf(*committee),
            final(dag).spec_last_commit() == old(dag).spec_last_commit(),
            final(dag).spec_last_committed_rounds() == old(dag).spec_last_committed_rounds(),
            final(dag).spec_store() == old(dag).spec_store(),
            match r {
                Ok((accepted, missing)) => {
                    &&& forall|i: int|
                        0 <= i < blocks@.len() ==> valid_block(
                            #[trigger] blocks@[i],
                            committee.spec_size(),
                        )
                    &&& final(dag).spec_blocks() == old(dag).spec_blocks() + accepted@
                    &&& forall|i: int|
                        0 <= i < accepted@.len() ==> valid_block(
                            #[trigger] accepted@[i],
                            committee.spec_size(),
                        )
                    &&& forall|i: int|
                        0 <= i < missing@.len() ==> !final(dag).contains_ref(
                            #[trigger] missing@[i],
                        )
                    &&& final(self).spec_missing() == missing@
                    // Acceptance completeness: an input block is in the DAG
                    // or is suspended.
                    &&& forall|i: int|
                        0 <= i < blocks@.len() ==> final(dag).contains_ref(
                            (#[trigger] blocks@[i]).spec_reference(),
                        ) || final(self).spec_suspended().contains(blocks@[i])
                    // A suspended block still waits on an absent ancestor.
                    &&& forall|k: int|
                        0 <= k < final(self).spec_suspended().len() ==> has_absent_ancestor(
                            final(dag).spec_blocks(),
                            #[trigger] final(self).spec_suspended()[k],
                        )
                    // Missing completeness: every absent ancestor of a
                    // suspended block is reported.
                    &&& forall|k: int, j: int|
                        0 <= k < final(self).spec_suspended().len() && 0 <= j
                            < final(self).spec_suspended()[k].spec_block().ancestors@.len()
                            && !final(dag).contains_ref(
                            #[trigger] final(self).spec_suspended()[k].spec_block().ancestors@[j],
                        ) ==> missing@.contains(
                            final(self).spec_suspended()[k].spec_block().ancestors@[j],
                        )
                    // Hence an input block is accepted, or one of its
                    // ancestors is reported missing.
                    &&& forall|i: int|
                        0 <= i < blocks@.len() ==> final(dag).contains_ref(
                            (#[trigger] blocks@[i]).spec_reference(),
                        ) || exists|j: int|
                            0 <= j < blocks@[i].spec_block().ancestors@.len() && missing@.contains(
                                #[trigger] blocks@[i].spec_block().ancestors@[j],
                            )
                },
                Err(e) => {
                    &&& e == ConsensusError::InvalidBlock
                    &&& exists|i: int|
                        0 <= i < blocks@.len() && !valid_block(
                            blocks@[i],
                            committee.spec_size(),
                        )
                    &&& *final(dag) == *old(dag)
                    &&& *final(self) == *old(self)
                },
            },
    {
        let n = committee.size();
        let mut v: usize = 0;
        let in_len = blocks.len();
        while v < in_len
            invariant
                0 <= v <= in_len,
                in_len == blocks@.len(),
                n == committee.spec_size(),
                *self == *old(self),
                *dag == *old(dag),
                self.wf(*committee),
                dag.wf(*committee),
                forall|i: int| 0 <= i < blocks@.len() ==> (#[trigger] blocks@[i]).wf(),
                forall|k: int| 0 <= k < v ==> valid_block(#[trigger] blocks@[k], n as nat),
            decreases in_len - v,
        {
            if !DagState::check_structure(&blocks[v], n) {
                proof {
                    assert(!valid_block(blocks@[v as int], committee.spec_size()));
                }
                return Err(ConsensusError::InvalidBlock);
            }
            v = v + 1;
        }
        // All inputs are structurally valid; pool them with the suspended
        // blocks and accept until no further progress.
        let ghost old_dag_blocks = dag.spec_blocks();
        let mut pending: Vec<VerifiedBlock> = Vec::new();
        while self.suspended.len() > 0
            invariant
                self.wf(*committee),
                n == committee.spec_size(),
                *dag == *old(dag),
                dag.wf(*committee),
                self.missing@ == old(self).spec_missing(),
                forall|i: int|
                    0 <= i < pending@.len() ==> valid_block(#[trigger] pending@[i], n as nat),
            decreases self.suspended@.len(),
        {
            let ghost pre = self.suspended@;
            let ghost pre_self = *self;
            let popped = self.suspended.pop();
            if let Some(b) = popped {
                proof {
                    assert(b == pre[pre.len() - 1]);
                    assert(valid_block(b, committee.spec_size())) by {
                        assert(pre_self.spec_suspended() == pre);
                        assert(valid_block(pre_self.spec_suspended()[pre.len() - 1],
                            committee.spec_size()));
                    }
                    assert forall|i: int| 0 <= i < self.spec_suspended().len() implies valid_block(
                        #[trigger] self.spec_suspended()[i],
                        committee.spec_size(),
                    ) by {
                        assert(self.spec_suspended()[i] == pre[i]);
                        assert(valid_block(pre_self.spec_suspended()[i], committee.spec_size()));
                    }
                }
                pending.push(b);
            }
        }
        let mut v2: usize = 0;
        while v2 < in_len
            invariant
                0 <= v2 <= in_len,
                in_len == blocks@.len(),
                n == committee.spec_size(),
                forall|k: int| 0 <= k < blocks@.len() ==> valid_block(#[trigger] blocks@[k], n as nat),
                forall|i: int|
                    0 <= i < pending@.len() ==> valid_block(#[trigger] pending@[i], n as nat),
                forall|t: int| 0 <= t < v2 ==> pending@.contains(#[trigger] blocks@[t]),
            decreases in_len - v2,
        {
            let ghost pre_pending = pending@;
            let b = blocks[v2].clone();
            pending.push(b);
            proof {
                assert(pending@.last() == blocks@[v2 as int]);
                assert forall|t: int| 0 <= t < v2 + 1 implies pending@.contains(
                    #[trigger] blocks@[t],
                ) by {
                    if t < v2 {
                        lemma_push_keeps_contains(pre_pending, b, blocks@[t]);
                    } else {
                        assert(pending@[pending@.len() - 1] == blocks@[t]);
                    }
                }
            }
            v2 = v2 + 1;
        }
        let mut accepted: Vec<VerifiedBlock> = Vec::new();
        proof {
            assert(dag.spec_blocks() =~= old_dag_blocks + accepted@);
        }
        loop
            invariant
                dag.wf(*committee),
                n == committee.spec_size(),
                in_len == blocks@.len(),
                dag.spec_blocks() == old_dag_blocks + accepted@,
                dag.spec_last_commit() == old(dag).spec_last_commit(),
                dag.spec_last_committed_rounds() == old(dag).spec_last_committed_rounds(),
                dag.spec_store() == old(dag).spec_store(),
                forall|i: int|
                    0 <= i < pending@.len() ==> valid_block(#[trigger] pending@[i], n as nat),
                forall|i: int|
                    0 <= i < accepted@.len() ==> valid_block(#[trigger] accepted@[i], n as nat),
                forall|t: int|
                    0 <= t < in_len ==> ref_present(
                        dag.spec_blocks(),
                        (#[trigger] blocks@[t]).spec_reference(),
                    ) || pending@.contains(blocks@[t]),
            ensures
                dag.wf(*committee),
                dag.spec_blocks() == old_dag_blocks + accepted@,
                dag.spec_last_commit() == old(dag).spec_last_commit(),
                dag.spec_last_committed_rounds() == old(dag).spec_last_committed_rounds(),
                dag.spec_store() == old(dag).spec_store(),
                forall|i: int|
                    0 <= i < pending@.len() ==> valid_block(#[trigger] pending@[i], n as nat),
                forall|i: int|
                    0 <= i < accepted@.len() ==> valid_block(#[trigger] accepted@[i], n as nat),
                forall|t: int|
                    0 <= t < in_len ==> ref_present(
                        dag.spec_blocks(),
                        (#[trigger] blocks@[t]).spec_reference(),
                    ) || pending@.contains(blocks@[t]),
                forall|k: int|
                    0 <= k < pending@.len() ==> has_absent_ancestor(
                        dag.spec_blocks(),
                        #[trigger] pending@[k],
                    ),
            decreases pending@.len(),
        {
            let before = pending.len();
            if before == 0 {
                break ;
            }
            let ghost dag0 = dag.spec_blocks();
            let mut kept: Vec<VerifiedBlock> = Vec::new();
            let mut i: usize = 0;
            proof {
                assert(pending@.skip(0) =~= pending@);
            }
            while i < pending.len()
                invariant
                    0 <= i <= pending@.len(),
                    dag.wf(*committee),
                    n == committee.spec_size(),
                    in_len == blocks@.len(),
                    dag.spec_blocks() == old_dag_blocks + accepted@,
                    dag.spec_last_commit() == old(dag).spec_last_commit(),
                    dag.spec_last_committed_rounds() == old(dag).spec_last_committed_rounds(),
                    dag.spec_store() == old(dag).spec_store(),
                    kept@.len() <= i,
                    forall|k: int|
                        0 <= k < pending@.len() ==> valid_block(#[trigger] pending@[k], n as nat),
                    forall|k: int|
                        0 <= k < kept@.len() ==> valid_block(#[trigger] kept@[k], n as nat),
                    forall|k: int|
                        0 <= k < accepted@.len() ==> valid_block(#[trigger] accepted@[k], n as nat),
                    forall|t: int|
                        0 <= t < in_len ==> ref_present(
                            dag.spec_blocks(),
                            (#[trigger] blocks@[t]).spec_reference(),
                        ) || kept@.contains(blocks@[t]) || pending@.skip(i as int).contains(
                            blocks@[t],
                        ),
                    kept@.len() == i ==> dag.spec_blocks() == dag0,
                    kept@.len() == i ==> forall|k: int|
                        0 <= k < i ==> has_absent_ancestor(dag0, #[trigger] pending@[k]),
                    kept@.len() == i ==> forall|k: int| 0 <= k < i ==> #[trigger] kept@[k]
                        == pending@[k],
                decreases pending@.len() - i,
            {
                let ghost pre_dag = dag.spec_blocks();
                let ghost pre_kept = kept@;
                let b = pending[i].clone();
                if Self::all_ancestors_present(dag, &b) {
                    if !dag.contains_block_ref(&b.reference()) {
                        let ghost pre = dag.spec_blocks();
                        dag.accept_block(b.clone(), committee);
                        accepted.push(b);
                        proof {
                            assert(dag.spec_blocks() =~= old_dag_blocks + accepted@);
                            crate::dag_state::lemma_refs_preserved(pre, dag.spec_blocks());
                        }
                    }
                    // An already-known block is absorbed.
                    proof {
                        assert(ref_present(dag.spec_blocks(), pending@[i as int].spec_reference()))
                            by {
                            if dag.spec_blocks() == pre_dag {
                                assert(dag.contains_ref(b.spec_reference()));
                            } else {
                                assert(dag.spec_blocks().last() == b);
                            }
                        }
                    }
                } else {
                    kept.push(b);
                    proof {
                        assert(kept@.last() == pending@[i as int]);
                    }
                }
                proof {
                    // Every input stays covered: in the DAG, kept, or still
                    // ahead in this pass.
                    assert forall|t: int|
                        0 <= t < in_len implies ref_present(
                        dag.spec_blocks(),
                        (#[trigger] blocks@[t]).spec_reference(),
                    ) || kept@.contains(blocks@[t]) || pending@.skip(i + 1).contains(
                        blocks@[t],
                    ) by {
                        if ref_present(pre_dag, blocks@[t].spec_reference()) {
                            crate::dag_state::lemma_refs_preserved(pre_dag, dag.spec_blocks());
                        } else if pre_kept.contains(blocks@[t]) {
                            let w = choose|w: int|
                                0 <= w < pre_kept.len() && pre_kept[w] == blocks@[t];
                            assert(kept@[w] == blocks@[t]);
                        } else if pending@.skip(i as int).contains(blocks@[t]) {
                            let w = choose|w: int|
                                0 <= w < pending@.skip(i as int).len() && pending@.skip(i as int)[w]
                                    == blocks@[t];
                            assert(pending@.skip(i as int)[w] == pending@[i + w]);
                            if w == 0 {
                                assert(blocks@[t] == pending@[i as int]);
                                if kept@.len() == pre_kept.len() {
                                    assert(ref_present(
                                        dag.spec_blocks(),
                                        blocks@[t].spec_reference(),
                                    ));
                                } else {
                                    assert(kept@.last() == blocks@[t]);
                                }
                            } else {
                                assert(pending@.skip(i + 1)[w - 1] == pending@[i + w]);
                            }
                        }
                    }
                    // An untouched pass pins the DAG and records the reason
                    // each scanned block waits.
                    if kept@.len() == i + 1 {
                        assert(pre_kept.len() == i && dag.spec_blocks() == dag0);
                        assert forall|k: int| 0 <= k < i + 1 implies #[trigger] kept@[k]
                            == pending@[k] by {
                            if k < i {
                                assert(kept@[k] == pre_kept[k]);
                            }
                        }
                        assert forall|k: int|
                            0 <= k < i + 1 implies has_absent_ancestor(
                            dag0,
                            #[trigger] pending@[k],
                        ) by {
                            if k == i {
                                assert(!(forall|j: int|
                                    0 <= j < b.spec_block().ancestors@.len() ==> dag.contains_ref(
                                        #[trigger] b.spec_block().ancestors@[j],
                                    )));
                                let j = choose|j: int|
                                    0 <= j < b.spec_block().ancestors@.len() && !dag.contains_ref(
                                        b.spec_block().ancestors@[j],
                                    );
                                assert(!ref_present(dag0, b.spec_block().ancestors@[j]));
                            }
                        }
                    }
                }
                i = i + 1;
            }
            let shrunk = kept.len() < before;
            proof {
                if !shrunk {
                    // Nothing was accepted in this pass: the DAG did not
                    // move, and every kept block waits on an absent
                    // ancestor.
                    assert(kept@.len() == before);
                    assert(dag.spec_blocks() == dag0);
                    assert forall|k: int|
                        0 <= k < kept@.len() implies has_absent_ancestor(
                        dag.spec_blocks(),
                        #[trigger] kept@[k],
                    ) by {
                        assert(has_absent_ancestor(dag0, pending@[k]));
                        assert(kept@[k] == pending@[k]);
                    }
                }
            }
            pending = kept;
            if !shrunk {
                break ;
            }
        }
        // What is left waits for its causal history; report its unknown
        // parents.
        let mut missing: Vec<BlockRef> = Vec::new();
        let mut s: usize = 0;
        while s < pending.len()
            invariant
                0 <= s <= pending@.len(),
                dag.wf(*committee),
                forall|k: int|
                    0 <= k < pending@.len() ==> valid_block(#[trigger] pending@[k], n as nat),
                forall|k: int|
                    0 <= k < missing@.len() ==> !dag.contains_ref(#[trigger] missing@[k]),
                forall|k: int, j: int|
                    0 <= k < s && 0 <= j < pending@[k].spec_block().ancestors@.len()
                        && !dag.contains_ref(
                        #[trigger] pending@[k].spec_block().ancestors@[j],
                    ) ==> missing@.contains(pending@[k].spec_block().ancestors@[j]),
            decreases pending@.len() - s,
        {
            let ancestors_len = pending[s].ancestors().len();
            let mut j: usize = 0;
            while j < ancestors_len
                invariant
                    0 <= j <= ancestors_len,
                    0 <= s < pending@.len(),
                    ancestors_len == pending@[s as int].spec_block().ancestors@.len(),
                    dag.wf(*committee),
                    forall|k: int|
                        0 <= k < pending@.len() ==> valid_block(#[trigger] pending@[k], n as nat),
                    forall|k: int|
                        0 <= k < missing@.len() ==> !dag.contains_ref(#[trigger] missing@[k]),
                    forall|k: int, j2: int|
                        0 <= k < s && 0 <= j2 < pending@[k].spec_block().ancestors@.len()
                            && !dag.contains_ref(
                            #[trigger] pending@[k].spec_block().ancestors@[j2],
                        ) ==> missing@.contains(pending@[k].spec_block().ancestors@[j2]),
                    forall|j2: int|
                        0 <= j2 < j && !dag.contains_ref(
                            #[trigger] pending@[s as int].spec_block().ancestors@[j2],
                        ) ==> missing@.contains(pending@[s as int].spec_block().ancestors@[j2]),
                decreases ancestors_len - j,
            {
                let ghost pre_missing = missing@;
                let anc = pending[s].ancestors()[j];
                if !dag.contains_block_ref(&anc) {
                    if !Self::ref_vec_contains(&missing, &anc) {
                        missing.push(anc);
                        proof {
                            assert(missing@.last() == anc);
                        }
                    }
                }
                proof {
                    assert forall|x: BlockRef| pre_missing.contains(x) implies missing@.contains(
                        x,
                    ) by {
                        if missing@.len() > pre_missing.len() {
                            lemma_push_keeps_contains(pre_missing, missing@.last(), x);
                        }
                    }
                }
                j = j + 1;
            }
            proof {
                assert forall|k: int, j2: int|
                    0 <= k < s + 1 && 0 <= j2 < pending@[k].spec_block().ancestors@.len()
                        && !dag.contains_ref(
                        #[trigger] pending@[k].spec_block().ancestors@[j2],
                    ) implies missing@.contains(pending@[k].spec_block().ancestors@[j2]) by {}
            }
            s = s + 1;
        }
        self.suspended = pending;
        let mut missing_out: Vec<BlockRef> = Vec::new();
        let mut t: usize = 0;
        while t < missing.len()
            invariant
                0 <= t <= missing@.len(),
                missing_out@ =~= missing@.take(t as int),
            decreases missing@.len() - t,
        {
            proof {
                assert(missing@.take(t + 1).drop_last() =~= missing@.take(t as int));
            }
            missing_out.push(missing[t]);
            t = t + 1;
        }
        proof {
            assert(missing@.take(missing@.len() as int) =~= missing@);
        }
        proof {
            // An input block that was not accepted is suspended, and one of
            // its absent ancestors is reported missing.
            assert forall|t: int|
                0 <= t < in_len && !dag.contains_ref(
                    (#[trigger] blocks@[t]).spec_reference(),
                ) implies exists|j: int|
                0 <= j < blocks@[t].spec_block().ancestors@.len() && missing@.contains(
                    #[trigger] blocks@[t].spec_block().ancestors@[j],
                ) by {
                let k = choose|k: int| 0 <= k < pending@.len() && pending@[k] == blocks@[t];
                assert(has_absent_ancestor(dag.spec_blocks(), pending@[k]));
                let j = choose|j: int|
                    0 <= j < pending@[k].spec_block().ancestors@.len() && !ref_present(
                        dag.spec_blocks(),
                        pending@[k].spec_block().ancestors@[j],
                    );
                assert(missing@.contains(pending@[k].spec_block().ancestors@[j]));
            }
        }
        self.missing = missing;
        Ok((accepted, missing_out))
    }

    /// The references this core knows of but has not received.
    pub fn missing_blocks(&self) -> (r: Vec<BlockRef>)
        ensures
            r@ == self.spec_missing(),
    {
        let mut out: Vec<BlockRef> = Vec::new();
        let mut i: usize = 0;
        let n = self.missing.len();
        while i < n
            invariant
                0 <= i <= n,
                n == self.missing@.len(),
                out@ =~= self.missing@.take(i as int),
            decreases n - i,
        {
            proof {
                assert(self.missing@.take(i + 1).drop_last() =~= self.missing@.take(i as int));
            }
            out.push(self.missing[i]);
            i = i + 1;
        }
        proof {
            assert(self.missing@.take(n as int) =~= self.missing@);
        }
        out
    }
}

} // verus!
