//! The universal committer: elects leader slots per round and decides them
//! with the direct rule.
//!
//! A leader of round `r` is skipped when a quorum of round `r + 1` blocks do
//! not link to its slot, and committed when a quorum of round `r + 2` blocks
//! certify one of its blocks; a certificate is a round `r + 2` block whose
//! round `r + 1` ancestors voting for the leader block carry a quorum of
//! stake. Decisions stop at the first undecided leader.

use vstd::prelude::*;

use crate::block::{BlockRef, Slot, VerifiedBlock};
use crate::committee::{selected_stake, Committee, StakeAggregator};
use crate::dag_state::{block_in, ref_present, valid_block, DagState};

verus! {

/// The verdict on one leader slot: committed to a concrete block, or skipped.
pub enum DecidedLeader {
    Commit(VerifiedBlock),
    Skip(Slot),
}

impl DecidedLeader {
    /// The slot the verdict decides.
    pub open spec fn spec_slot(&self) -> Slot {
        match self {
            DecidedLeader::Commit(b) => Slot {
                round: b.spec_block().round,
                authority: b.spec_block().author,
            },
            DecidedLeader::Skip(s) => *s,
        }
    }

    pub fn get_decided_slot(&self) -> (r: Slot)
        ensures
            r == self.spec_slot(),
    {
        match self {
            DecidedLeader::Commit(b) => Slot { round: b.round(), authority: b.author() },
            DecidedLeader::Skip(s) => *s,
        }
    }

    /// The committed block, if the verdict committed one.
    pub fn into_committed_block(self) -> (r: Option<VerifiedBlock>)
        ensures
            r == match self {
                DecidedLeader::Commit(b) => Some(b),
                DecidedLeader::Skip(_) => None::<VerifiedBlock>,
            },
    {
        match self {
            DecidedLeader::Commit(b) => Some(b),
            DecidedLeader::Skip(_) => None,
        }
    }
}

/// Whether `b` references the slot of `leader` among its ancestors.
pub open spec fn links_to_slot(b: VerifiedBlock, leader: Slot) -> bool {
    exists|j: int|
        0 <= j < b.spec_block().ancestors@.len() && (#[trigger] b.spec_block().ancestors@[j]).round
            == leader.round && b.spec_block().ancestors@[j].author == leader.authority
}

/// Whether `b` references exactly `r` among its ancestors.
pub open spec fn links_to_ref(b: VerifiedBlock, r: BlockRef) -> bool {
    exists|j: int| 0 <= j < b.spec_block().ancestors@.len() && b.spec_block().ancestors@[j] == r
}

/// A `Commit` verdict commits a well-formed block of the DAG.
pub open spec fn commit_block_ok(v: DecidedLeader, blocks: Seq<VerifiedBlock>) -> bool {
    match v {
        DecidedLeader::Commit(b) => block_in(blocks, b) && b.wf(),
        DecidedLeader::Skip(_) => true,
    }
}

/// Whether `b` sits at the slot `s`.
pub open spec fn at_slot(b: VerifiedBlock, s: Slot) -> bool {
    b.spec_block().round == s.round && b.spec_block().author == s.authority
}

/// Which authorities blame `leader` among the first `k` blocks: they have a
/// voting-round block there that does not link to its slot.
pub open spec fn blame_marks_prefix(
    blocks: Seq<VerifiedBlock>,
    leader: Slot,
    n: nat,
    k: int,
) -> Seq<bool> {
    Seq::new(
        n,
        |a: int|
            exists|i: int|
                0 <= i < k && i < blocks.len() && (#[trigger] blocks[i]).spec_block().round
                    == leader.round + 1 && blocks[i].spec_block().author == a && !links_to_slot(
                    blocks[i],
                    leader,
                ),
    )
}

/// Which authorities blame `leader`: they have a voting-round block that does
/// not link to its slot.
pub open spec fn blame_marks(blocks: Seq<VerifiedBlock>, leader: Slot, n: nat) -> Seq<bool> {
    blame_marks_prefix(blocks, leader, n, blocks.len() as int)
}

/// The skip half of the direct rule: a quorum of voting-round stake does not
/// link to the leader slot.
pub open spec fn skip_decided(blocks: Seq<VerifiedBlock>, leader: Slot, committee: Committee) -> bool {
    selected_stake(blame_marks(blocks, leader, committee.spec_size()), committee.spec_stakes())
        >= committee.spec_quorum_threshold()
}

/// One scan step extends the blame marks by at most the scanned block's
/// author.
pub proof fn lemma_blame_marks_step(blocks: Seq<VerifiedBlock>, leader: Slot, n: nat, i: int)
    requires
        0 <= i < blocks.len(),
        (blocks[i].spec_block().author as nat) < n,
    ensures
        (blocks[i].spec_block().round == leader.round + 1 && !links_to_slot(blocks[i], leader))
            ==> blame_marks_prefix(blocks, leader, n, i + 1) =~= blame_marks_prefix(
            blocks,
            leader,
            n,
            i,
        ).update(blocks[i].spec_block().author as int, true),
        !(blocks[i].spec_block().round == leader.round + 1 && !links_to_slot(blocks[i], leader))
            ==> blame_marks_prefix(blocks, leader, n, i + 1) =~= blame_marks_prefix(
            blocks,
            leader,
            n,
            i,
        ),
{
    let pre = blame_marks_prefix(blocks, leader, n, i);
    let post = blame_marks_prefix(blocks, leader, n, i + 1);
    if blocks[i].spec_block().round == leader.round + 1 && !links_to_slot(blocks[i], leader) {
        let author = blocks[i].spec_block().author as int;
        assert forall|a: int| 0 <= a < n implies post[a] == pre.update(author, true)[a] by {
            if a == author {
                assert(0 <= i < i + 1 && blocks[i].spec_block().round == leader.round + 1
                    && blocks[i].spec_block().author == a && !links_to_slot(blocks[i], leader));
                assert(post[a]);
            } else {
                if post[a] {
                    let w = choose|w: int|
                        0 <= w < i + 1 && w < blocks.len() && (
                        #[trigger] blocks[w]).spec_block().round == leader.round + 1 && blocks[
                            w].spec_block().author == a && !links_to_slot(blocks[w], leader);
                    assert(w < i);
                    assert(pre[a]);
                }
                if pre[a] {
                    let w = choose|w: int|
                        0 <= w < i && w < blocks.len() && (
                        #[trigger] blocks[w]).spec_block().round == leader.round + 1 && blocks[
                            w].spec_block().author == a && !links_to_slot(blocks[w], leader);
                    assert(post[a]);
                }
            }
        }
    } else {
        assert forall|a: int| 0 <= a < n implies post[a] == pre[a] by {
            if post[a] {
                let w = choose|w: int|
                    0 <= w < i + 1 && w < blocks.len() && (#[trigger] blocks[w]).spec_block().round
                        == leader.round + 1 && blocks[w].spec_block().author == a && !links_to_slot(
                        blocks[w],
                        leader,
                    );
                assert(w < i);
                assert(pre[a]);
            }
            if pre[a] {
                let w = choose|w: int|
                    0 <= w < i && w < blocks.len() && (#[trigger] blocks[w]).spec_block().round
                        == leader.round + 1 && blocks[w].spec_block().author == a && !links_to_slot(
                        blocks[w],
                        leader,
                    );
                assert(post[a]);
            }
        }
    }
}

/// Which authorities vote for the leader reference `lref` among the first `k`
/// ancestors of `db`: the ancestor is at the voting round and the accepted
/// block it references links to `lref`.
pub open spec fn vote_marks_prefix(
    blocks: Seq<VerifiedBlock>,
    db: VerifiedBlock,
    lref: BlockRef,
    n: nat,
    k: int,
) -> Seq<bool> {
    Seq::new(
        n,
        |a: int|
            exists|j: int, i: int|
                #![trigger db.spec_block().ancestors@[j], blocks[i]]
                0 <= j < k && j < db.spec_block().ancestors@.len()
                    && db.spec_block().ancestors@[j].round == lref.round + 1
                    && db.spec_block().ancestors@[j].author == a && 0 <= i < blocks.len()
                    && blocks[i].spec_reference() == db.spec_block().ancestors@[j] && links_to_ref(
                    blocks[i],
                    lref,
                ),
    )
}

/// Which authorities vote for `lref` among all the ancestors of `db`.
pub open spec fn vote_marks(
    blocks: Seq<VerifiedBlock>,
    db: VerifiedBlock,
    lref: BlockRef,
    n: nat,
) -> Seq<bool> {
    vote_marks_prefix(blocks, db, lref, n, db.spec_block().ancestors@.len() as int)
}

/// Whether `db` is a certificate for the leader block `lb`: the voting-round
/// ancestors of `db` whose blocks vote for `lb` carry a quorum of stake.
pub open spec fn is_certificate_spec(
    blocks: Seq<VerifiedBlock>,
    db: VerifiedBlock,
    lb: VerifiedBlock,
    committee: Committee,
) -> bool {
    selected_stake(
        vote_marks(blocks, db, lb.spec_reference(), committee.spec_size()),
        committee.spec_stakes(),
    ) >= committee.spec_quorum_threshold()
}

/// One scan step extends the vote marks by at most the scanned ancestor's
/// author.
pub proof fn lemma_vote_marks_step(
    blocks: Seq<VerifiedBlock>,
    db: VerifiedBlock,
    lref: BlockRef,
    n: nat,
    j: int,
)
    requires
        0 <= j < db.spec_block().ancestors@.len(),
        (db.spec_block().ancestors@[j].author as nat) < n,
    ensures
        (db.spec_block().ancestors@[j].round == lref.round + 1 && exists|i: int|
            0 <= i < blocks.len() && (#[trigger] blocks[i]).spec_reference()
                == db.spec_block().ancestors@[j] && links_to_ref(blocks[i], lref))
            ==> vote_marks_prefix(blocks, db, lref, n, j + 1) =~= vote_marks_prefix(
            blocks,
            db,
            lref,
            n,
            j,
        ).update(db.spec_block().ancestors@[j].author as int, true),
        !(db.spec_block().ancestors@[j].round == lref.round + 1 && exists|i: int|
            0 <= i < blocks.len() && (#[trigger] blocks[i]).spec_reference()
                == db.spec_block().ancestors@[j] && links_to_ref(blocks[i], lref))
            ==> vote_marks_prefix(blocks, db, lref, n, j + 1) =~= vote_marks_prefix(
            blocks,
            db,
            lref,
            n,
            j,
        ),
{
    let pre = vote_marks_prefix(blocks, db, lref, n, j);
    let post = vote_marks_prefix(blocks, db, lref, n, j + 1);
    let anc = db.spec_block().ancestors@[j];
    if anc.round == lref.round + 1 && exists|i: int|
        0 <= i < blocks.len() && (#[trigger] blocks[i]).spec_reference() == anc && links_to_ref(
            blocks[i],
            lref,
        ) {
        let author = anc.author as int;
        let wi = choose|i: int|
            0 <= i < blocks.len() && (#[trigger] blocks[i]).spec_reference() == anc
                && links_to_ref(blocks[i], lref);
        assert forall|a: int| 0 <= a < n implies post[a] == pre.update(author, true)[a] by {
            if a == author {
                assert(0 <= j < j + 1 && db.spec_block().ancestors@[j].round == lref.round + 1
                    && db.spec_block().ancestors@[j].author == a && 0 <= wi < blocks.len()
                    && blocks[wi].spec_reference() == db.spec_block().ancestors@[j]
                    && links_to_ref(blocks[wi], lref));
                assert(post[a]);
            } else {
                if post[a] {
                    let (wj, wb) = choose|wj: int, wb: int|
                        #![trigger db.spec_block().ancestors@[wj], blocks[wb]]
                        0 <= wj < j + 1 && wj < db.spec_block().ancestors@.len()
                            && db.spec_block().ancestors@[wj].round == lref.round + 1
                            && db.spec_block().ancestors@[wj].author == a && 0 <= wb < blocks.len()
                            && blocks[wb].spec_reference() == db.spec_block().ancestors@[wj]
                            && links_to_ref(blocks[wb], lref);
                    assert(wj < j);
                    assert(pre[a]);
                }
                if pre[a] {
                    let (wj, wb) = choose|wj: int, wb: int|
                        #![trigger db.spec_block().ancestors@[wj], blocks[wb]]
                        0 <= wj < j && wj < db.spec_block().ancestors@.len()
                            && db.spec_block().ancestors@[wj].round == lref.round + 1
                            && db.spec_block().ancestors@[wj].author == a && 0 <= wb < blocks.len()
                            && blocks[wb].spec_reference() == db.spec_block().ancestors@[wj]
                            && links_to_ref(blocks[wb], lref);
                    assert(post[a]);
                }
            }
        }
    } else {
        assert forall|a: int| 0 <= a < n implies post[a] == pre[a] by {
            if post[a] {
                let (wj, wb) = choose|wj: int, wb: int|
                    #![trigger db.spec_block().ancestors@[wj], blocks[wb]]
                    0 <= wj < j + 1 && wj < db.spec_block().ancestors@.len()
                        && db.spec_block().ancestors@[wj].round == lref.round + 1
                        && db.spec_block().ancestors@[wj].author == a && 0 <= wb < blocks.len()
                        && blocks[wb].spec_reference() == db.spec_block().ancestors@[wj]
                        && links_to_ref(blocks[wb], lref);
                if wj == j {
                    assert(exists|i: int|
                        0 <= i < blocks.len() && (#[trigger] blocks[i]).spec_reference() == anc
                            && links_to_ref(blocks[i], lref));
                    assert(false);
                }
                assert(pre[a]);
            }
            if pre[a] {
                let (wj, wb) = choose|wj: int, wb: int|
                    #![trigger db.spec_block().ancestors@[wj], blocks[wb]]
                    0 <= wj < j && wj < db.spec_block().ancestors@.len()
                        && db.spec_block().ancestors@[wj].round == lref.round + 1
                        && db.spec_block().ancestors@[wj].author == a && 0 <= wb < blocks.len()
                        && blocks[wb].spec_reference() == db.spec_block().ancestors@[wj]
                        && links_to_ref(blocks[wb], lref);
                assert(post[a]);
            }
        }
    }
}

/// Which authorities certify `lb` among the first `k` blocks: they have a
/// decision-round block there that is a certificate for `lb`.
pub open spec fn cert_marks_prefix(
    blocks: Seq<VerifiedBlock>,
    lb: VerifiedBlock,
    committee: Committee,
    k: int,
) -> Seq<bool> {
    Seq::new(
        committee.spec_size(),
        |a: int|
            exists|i: int|
                0 <= i < k && i < blocks.len() && (#[trigger] blocks[i]).spec_block().round
                    == lb.spec_block().round + 2 && blocks[i].spec_block().author == a
                    && is_certificate_spec(blocks, blocks[i], lb, committee),
    )
}

/// The commit half of the direct rule for one leader block: a quorum of
/// decision-round stake certifies it.
pub open spec fn enough_support_spec(
    blocks: Seq<VerifiedBlock>,
    lb: VerifiedBlock,
    committee: Committee,
) -> bool {
    selected_stake(
        cert_marks_prefix(blocks, lb, committee, blocks.len() as int),
        committee.spec_stakes(),
    ) >= committee.spec_quorum_threshold()
}

/// One scan step extends the certificate marks by at most the scanned block's
/// author.
pub proof fn lemma_cert_marks_step(
    blocks: Seq<VerifiedBlock>,
    lb: VerifiedBlock,
    committee: Committee,
    i: int,
)
    requires
        0 <= i < blocks.len(),
        (blocks[i].spec_block().author as nat) < committee.spec_size(),
    ensures
        (blocks[i].spec_block().round == lb.spec_block().round + 2 && is_certificate_spec(
            blocks,
            blocks[i],
            lb,
            committee,
        )) ==> cert_marks_prefix(blocks, lb, committee, i + 1) =~= cert_marks_prefix(
            blocks,
            lb,
            committee,
            i,
        ).update(blocks[i].spec_block().author as int, true),
        !(blocks[i].spec_block().round == lb.spec_block().round + 2 && is_certificate_spec(
            blocks,
            blocks[i],
            lb,
            committee,
        )) ==> cert_marks_prefix(blocks, lb, committee, i + 1) =~= cert_marks_prefix(
            blocks,
            lb,
            committee,
            i,
        ),
{
    let n = committee.spec_size();
    let pre = cert_marks_prefix(blocks, lb, committee, i);
    let post = cert_marks_prefix(blocks, lb, committee, i + 1);
    if blocks[i].spec_block().round == lb.spec_block().round + 2 && is_certificate_spec(
        blocks,
        blocks[i],
        lb,
        committee,
    ) {
        let author = blocks[i].spec_block().author as int;
        assert forall|a: int| 0 <= a < n implies post[a] == pre.update(author, true)[a] by {
            if a == author {
                assert(0 <= i < i + 1 && blocks[i].spec_block().round == lb.spec_block().round + 2
                    && blocks[i].spec_block().author == a && is_certificate_spec(
                    blocks,
                    blocks[i],
                    lb,
                    committee,
                ));
                assert(post[a]);
            } else {
                if post[a] {
                    let w = choose|w: int|
                        0 <= w < i + 1 && w < blocks.len() && (
                        #[trigger] blocks[w]).spec_block().round == lb.spec_block().round + 2
                            && blocks[w].spec_block().author == a && is_certificate_spec(
                            blocks,
                            blocks[w],
                            lb,
                            committee,
                        );
                    assert(w < i);
                    assert(pre[a]);
                }
                if pre[a] {
                    let w = choose|w: int|
                        0 <= w < i && w < blocks.len() && (#[trigger] blocks[w]).spec_block().round
                            == lb.spec_block().round + 2 && blocks[w].spec_block().author == a
                            && is_certificate_spec(blocks, blocks[w], lb, committee);
                    assert(post[a]);
                }
            }
        }
    } else {
        assert forall|a: int| 0 <= a < n implies post[a] == pre[a] by {
            if post[a] {
                let w = choose|w: int|
                    0 <= w < i + 1 && w < blocks.len() && (#[trigger] blocks[w]).spec_block().round
                        == lb.spec_block().round + 2 && blocks[w].spec_block().author == a
                        && is_certificate_spec(blocks, blocks[w], lb, committee);
                assert(w < i);
                assert(pre[a]);
            }
            if pre[a] {
                let w = choose|w: int|
                    0 <= w < i && w < blocks.len() && (#[trigger] blocks[w]).spec_block().round
                        == lb.spec_block().round + 2 && blocks[w].spec_block().author == a
                        && is_certificate_spec(blocks, blocks[w], lb, committee);
                assert(post[a]);
            }
        }
    }
}

/// Whether some accepted block at `slot` is certified by a quorum.
pub open spec fn commit_decided(
    blocks: Seq<VerifiedBlock>,
    slot: Slot,
    committee: Committee,
) -> bool {
    exists|i: int|
        0 <= i < blocks.len() && at_slot(#[trigger] blocks[i], slot) && enough_support_spec(
            blocks,
            blocks[i],
            committee,
        )
}

/// Whether the direct rule decides `slot` at all: skipped on a quorum of
/// blame, or committed on a quorum of certificates.
pub open spec fn slot_decided(blocks: Seq<VerifiedBlock>, slot: Slot, committee: Committee) -> bool {
    skip_decided(blocks, slot, committee) || commit_decided(blocks, slot, committee)
}

/// `b` is the first accepted block at `slot` certified by a quorum.
pub open spec fn is_first_supported(
    blocks: Seq<VerifiedBlock>,
    slot: Slot,
    committee: Committee,
    b: VerifiedBlock,
) -> bool {
    exists|i: int|
        0 <= i < blocks.len() && (#[trigger] blocks[i]) == b && at_slot(b, slot)
            && enough_support_spec(blocks, b, committee) && (forall|k: int|
            0 <= k < i ==> !(at_slot(#[trigger] blocks[k], slot) && enough_support_spec(
                blocks,
                blocks[k],
                committee,
            )))
}

/// What the direct rule yields on a decided slot: `Skip` on a quorum of
/// blame, else the first certified block at the slot.
pub open spec fn verdict_matches(
    blocks: Seq<VerifiedBlock>,
    slot: Slot,
    committee: Committee,
    v: DecidedLeader,
) -> bool {
    if skip_decided(blocks, slot, committee) {
        v == DecidedLeader::Skip(slot)
    } else {
        match v {
            DecidedLeader::Commit(b) => is_first_supported(blocks, slot, committee, b),
            DecidedLeader::Skip(_) => false,
        }
    }
}

/// The `p`-th leader slot evaluated after `last`: slots are ordered by round,
/// then by leader position within the round.
pub open spec fn nth_slot(last: Slot, num: nat, committee: Committee, p: int) -> Slot {
    let round = last.round + 1 + p / (num as int);
    Slot {
        round: round as u32,
        authority: ((round + (p % (num as int))) as int % committee.spec_size() as int) as u32,
    }
}

/// How many leader slots the decision loop evaluates: every leader position
/// of the rounds between the last decided one and two below the highest.
pub open spec fn slots_in_reach(last: Slot, h: u32, num: nat) -> int {
    if h < 2 || last.round >= h - 2 {
        0
    } else {
        (h - 2 - last.round) * num
    }
}

/// Whether `h` is the highest round of any block of `blocks`.
pub open spec fn is_highest_round(blocks: Seq<VerifiedBlock>, h: u32) -> bool {
    &&& forall|i: int| 0 <= i < blocks.len() ==> (#[trigger] blocks[i]).spec_block().round <= h
    &&& exists|i: int| 0 <= i < blocks.len() && (#[trigger] blocks[i]).spec_block().round == h
}

/// The direct rule decides position `p` of the slot enumeration after `last`
/// and yields the verdict `v` there.
pub open spec fn verdict_at(
    blocks: Seq<VerifiedBlock>,
    last: Slot,
    num: nat,
    committee: Committee,
    p: int,
    v: DecidedLeader,
) -> bool {
    &&& slot_decided(blocks, nth_slot(last, num, committee, p), committee)
    &&& verdict_matches(blocks, nth_slot(last, num, committee, p), committee, v)
}

/// What the commit driver returns: the direct rule's verdicts on the leader
/// slots after `last`, in evaluation order, cut at the first undecided slot.
pub open spec fn is_decision_sequence(
    blocks: Seq<VerifiedBlock>,
    last: Slot,
    num: nat,
    committee: Committee,
    r: Seq<DecidedLeader>,
) -> bool {
    exists|h: u32|
        #![auto]
        is_highest_round(blocks, h) && r.len() <= slots_in_reach(last, h, num) && (forall|p: int|
            0 <= p < r.len() ==> verdict_at(blocks, last, num, committee, p, #[trigger] r[p])) && (
        r.len() < slots_in_reach(last, h, num) ==> !slot_decided(
            blocks,
            nth_slot(last, num, committee, r.len() as int),
            committee,
        ))
}

/// A verdict sequence that satisfies the decision rule slot by slot up to a
/// highest round `h` is a decision sequence.
pub proof fn lemma_decision_sequence_intro(
    blocks: Seq<VerifiedBlock>,
    last: Slot,
    num: nat,
    committee: Committee,
    r: Seq<DecidedLeader>,
    h: u32,
)
    requires
        is_highest_round(blocks, h),
        r.len() <= slots_in_reach(last, h, num),
        forall|p: int|
            0 <= p < r.len() ==> verdict_at(blocks, last, num, committee, p, #[trigger] r[p]),
        r.len() < slots_in_reach(last, h, num) ==> !slot_decided(
            blocks,
            nth_slot(last, num, committee, r.len() as int),
            committee,
        ),
    ensures
        is_decision_sequence(blocks, last, num, committee, r),
{
    assert(is_highest_round(blocks, h) && r.len() <= slots_in_reach(last, h, num) && (forall|p: int|
        0 <= p < r.len() ==> verdict_at(blocks, last, num, committee, p, #[trigger] r[p])) && (
    r.len() < slots_in_reach(last, h, num) ==> !slot_decided(
        blocks,
        nth_slot(last, num, committee, r.len() as int),
        committee,
    )));
}

/// The blocks of the `Commit` verdicts of a sequence, in order.
pub open spec fn committed_blocks_of(vs: Seq<DecidedLeader>) -> Seq<VerifiedBlock>
    decreases vs.len(),
{
    if vs.len() == 0 {
        Seq::empty()
    } else {
        match vs.last() {
            DecidedLeader::Commit(b) => committed_blocks_of(vs.drop_last()).push(b),
            DecidedLeader::Skip(_) => committed_blocks_of(vs.drop_last()),
        }
    }
}

/// Decides leader slots in round order with the direct decision rule.
pub struct UniversalCommitter {
    num_of_leaders: usize,
}

impl UniversalCommitter {
    pub closed spec fn spec_num_of_leaders(&self) -> nat {
        self.num_of_leaders as nat
    }

    pub open spec fn wf(&self) -> bool {
        1 <= self.spec_num_of_leaders() <= u32::MAX
    }

    pub fn new(num_of_leaders: usize) -> (r: UniversalCommitter)
        requires
            1 <= num_of_leaders <= u32::MAX,
        ensures
            r.spec_num_of_leaders() == num_of_leaders,
            r.wf(),
    {
        UniversalCommitter { num_of_leaders }
    }

    /// The leader authorities of a round, in commit-rule evaluation order.
    /// The genesis round has no leaders.
    pub fn get_leaders(&self, round: u32, committee: &Committee) -> (r: Vec<u32>)
        requires
            committee.wf(),
            self.wf(),
        ensures
            round == 0 ==> r@.len() == 0,
            round != 0 ==> r@.len() == self.spec_num_of_leaders(),
            forall|i: int|
                0 <= i < r@.len() ==> r@[i] == ((round + i) as int % committee.spec_size() as int),
            forall|i: int| 0 <= i < r@.len() ==> (#[trigger] r@[i] as int) < committee.spec_size(),
    {
        proof {
            committee.wf_facts();
        }
        let mut out: Vec<u32> = Vec::new();
        if round == 0 {
            return out;
        }
        let n = committee.size() as u64;
        let mut i: usize = 0;
        while i < self.num_of_leaders
            invariant
                0 <= i <= self.num_of_leaders,
                self.wf(),
                n == committee.spec_size(),
                n >= 1,
                committee.spec_size() <= u32::MAX,
                out@.len() == i,
                forall|k: int|
                    0 <= k < i ==> out@[k] == ((round + k) as int % committee.spec_size() as int),
                forall|k: int|
                    0 <= k < i ==> (#[trigger] out@[k] as int) < committee.spec_size(),
            decreases self.num_of_leaders - i,
        {
            let idx = ((round as u64) + (i as u64)) % n;
            out.push(idx as u32);
            proof {
                assert(((round as u64) + (i as u64)) as int == (round + i) as int);
            }
            i = i + 1;
        }
        out
    }

    /// Decide as many leader slots as possible after `last_decided`, in
    /// order; stops at the first undecided slot. The result is the direct
    /// rule's verdict sequence over the DAG.
    #[verifier::rlimit(100)]
    #[verifier::spinoff_prover]
    pub fn try_commit(
        &self,
        last_decided: Slot,
        dag: &DagState,
        committee: &Committee,
    ) -> (r: Vec<DecidedLeader>)
        requires
            dag.wf(*committee),
            self.wf(),
        ensures
            forall|i: int|
                0 <= i < r@.len() ==> (#[trigger] r@[i]).spec_slot().round > last_decided.round,
            forall|i: int, j: int|
                0 <= i < j < r@.len() ==> (#[trigger] r@[i]).spec_slot().round <= (
                #[trigger] r@[j]).spec_slot().round,
            forall|i: int|
                0 <= i < r@.len() ==> commit_block_ok(#[trigger] r@[i], dag.spec_blocks()),
            is_decision_sequence(
                dag.spec_blocks(),
                last_decided,
                self.spec_num_of_leaders(),
                *committee,
                r@,
            ),
    {
        let ghost blocks = dag.spec_blocks();
        let ghost num = self.spec_num_of_leaders();
        let mut out: Vec<DecidedLeader> = Vec::new();
        let h = dag.highest_accepted_round(committee);
        proof {
            assert(is_highest_round(blocks, h));
        }
        if h < 2 || last_decided.round >= h - 2 {
            proof {
                assert(slots_in_reach(last_decided, h, num) == 0);
                lemma_decision_sequence_intro(blocks, last_decided, num, *committee, out@, h);
            }
            return out;
        }
        let mut round = last_decided.round + 1;
        while round <= h - 2
            invariant
                dag.wf(*committee),
                self.wf(),
                blocks == dag.spec_blocks(),
                num == self.spec_num_of_leaders(),
                h >= 2,
                is_highest_round(blocks, h),
                last_decided.round < h - 2,
                last_decided.round < round <= h - 1,
                out@.len() == (round - last_decided.round - 1) * (num as int),
                forall|p: int|
                    0 <= p < out@.len() ==> verdict_at(
                        blocks,
                        last_decided,
                        num,
                        *committee,
                        p,
                        #[trigger] out@[p],
                    ),
                forall|i: int|
                    0 <= i < out@.len() ==> (#[trigger] out@[i]).spec_slot().round
                        > last_decided.round,
                forall|i: int|
                    0 <= i < out@.len() ==> (#[trigger] out@[i]).spec_slot().round < round,
                forall|i: int, j: int|
                    0 <= i < j < out@.len() ==> (#[trigger] out@[i]).spec_slot().round <= (
                    #[trigger] out@[j]).spec_slot().round,
                forall|i: int|
                    0 <= i < out@.len() ==> commit_block_ok(#[trigger] out@[i], dag.spec_blocks()),
            ensures
                forall|i: int|
                    0 <= i < out@.len() ==> (#[trigger] out@[i]).spec_slot().round
                        > last_decided.round,
                forall|i: int, j: int|
                    0 <= i < j < out@.len() ==> (#[trigger] out@[i]).spec_slot().round <= (
                    #[trigger] out@[j]).spec_slot().round,
                forall|i: int|
                    0 <= i < out@.len() ==> commit_block_ok(#[trigger] out@[i], dag.spec_blocks()),
                last_decided.round < round <= h - 1,
                round > h - 2,
                out@.len() == (round - last_decided.round - 1) * (num as int),
                forall|p: int|
                    0 <= p < out@.len() ==> verdict_at(
                        blocks,
                        last_decided,
                        num,
                        *committee,
                        p,
                        #[trigger] out@[p],
                    ),
            decreases h - round,
        {
            let leaders = self.get_leaders(round, committee);
            let ghost base = (round - last_decided.round - 1) * (num as int);
            let mut li: usize = 0;
            let mut undecided = false;
            while li < leaders.len()
                invariant_except_break
                    !undecided,
                invariant
                    0 <= li <= leaders@.len(),
                    dag.wf(*committee),
                    self.wf(),
                    blocks == dag.spec_blocks(),
                    num == self.spec_num_of_leaders(),
                    leaders@.len() == num,
                    h >= 2,
                    last_decided.round < round,
                    round <= h - 2,
                    round + 2 <= u32::MAX,
                    base == (round - last_decided.round - 1) * (num as int),
                    out@.len() == base + li,
                    forall|k: int|
                        0 <= k < leaders@.len() ==> #[trigger] leaders@[k] == ((round + k) as int
                            % committee.spec_size() as int),
                    forall|k: int|
                        0 <= k < leaders@.len() ==> 0 <= #[trigger] leaders@[k]
                            < committee.spec_size(),
                    forall|p: int|
                        0 <= p < out@.len() ==> verdict_at(
                            blocks,
                            last_decided,
                            num,
                            *committee,
                            p,
                            #[trigger] out@[p],
                        ),
                    forall|i: int|
                        0 <= i < out@.len() ==> (#[trigger] out@[i]).spec_slot().round
                            > last_decided.round,
                    forall|i: int|
                        0 <= i < out@.len() ==> (#[trigger] out@[i]).spec_slot().round <= round,
                    forall|i: int, j: int|
                        0 <= i < j < out@.len() ==> (#[trigger] out@[i]).spec_slot().round <= (
                        #[trigger] out@[j]).spec_slot().round,
                    forall|i: int|
                        0 <= i < out@.len() ==> commit_block_ok(
                            #[trigger] out@[i],
                            dag.spec_blocks(),
                        ),
                ensures
                    forall|i: int|
                        0 <= i < out@.len() ==> (#[trigger] out@[i]).spec_slot().round
                            > last_decided.round,
                    forall|i: int|
                        0 <= i < out@.len() ==> (#[trigger] out@[i]).spec_slot().round <= round,
                    forall|i: int, j: int|
                        0 <= i < j < out@.len() ==> (#[trigger] out@[i]).spec_slot().round <= (
                        #[trigger] out@[j]).spec_slot().round,
                    forall|i: int|
                        0 <= i < out@.len() ==> commit_block_ok(
                            #[trigger] out@[i],
                            dag.spec_blocks(),
                        ),
                    forall|p: int|
                        0 <= p < out@.len() ==> verdict_at(
                            blocks,
                            last_decided,
                            num,
                            *committee,
                            p,
                            #[trigger] out@[p],
                        ),
                    !undecided ==> out@.len() == base + (num as int),
                    undecided ==> out@.len() < slots_in_reach(last_decided, h, num)
                        && !slot_decided(
                        blocks,
                        nth_slot(last_decided, num, *committee, out@.len() as int),
                        *committee,
                    ),
                decreases leaders@.len() - li,
            {
                let slot = Slot { round, authority: leaders[li] };
                proof {
                    // The slot evaluated here is the one at position
                    // `base + li` of the enumeration.
                    vstd::arithmetic::div_mod::lemma_fundamental_div_mod_converse(
                        base + li,
                        num as int,
                        (round - last_decided.round - 1) as int,
                        li as int,
                    );
                    assert(nth_slot(last_decided, num, *committee, base + li) == slot);
                }
                match self.try_direct_decide(slot, dag, committee) {
                    Some(verdict) => {
                        proof {
                            assert(verdict.spec_slot().round == round);
                        }
                        let ghost pre_out = out@;
                        out.push(verdict);
                        proof {
                            assert forall|p: int| 0 <= p < out@.len() implies verdict_at(
                                blocks,
                                last_decided,
                                num,
                                *committee,
                                p,
                                #[trigger] out@[p],
                            ) by {
                                if p < pre_out.len() {
                                    assert(out@[p] == pre_out[p]);
                                    assert(verdict_at(blocks, last_decided, num, *committee, p, pre_out[p]));
                                } else {
                                    assert(out@[p] == verdict);
                                    assert(nth_slot(last_decided, num, *committee, p) == slot);
                                }
                            }
                        }
                    },
                    None => {
                        undecided = true;
                        proof {
                            // The undecided slot sits strictly inside the
                            // reachable range.
                            assert((round - last_decided.round - 1) * (num as int) + (num as int)
                                <= (h - 2 - last_decided.round) * (num as int)) by (nonlinear_arith)
                                requires
                                    round <= h - 2,
                                    last_decided.round < round,
                                    num >= 1,
                            ;
                            assert(out@.len() < slots_in_reach(last_decided, h, num));
                        }
                        break ;
                    },
                }
                li = li + 1;
            }
            if undecided {
                proof {
                    lemma_decision_sequence_intro(blocks, last_decided, num, *committee, out@, h);
                }
                return out;
            }
            proof {
                assert((round - last_decided.round - 1) * (num as int) + (num as int) == ((round
                    + 1) - last_decided.round - 1) * (num as int)) by (nonlinear_arith);
            }
            round = round + 1;
        }
        proof {
            assert(out@.len() == slots_in_reach(last_decided, h, num));
            lemma_decision_sequence_intro(blocks, last_decided, num, *committee, out@, h);
        }
        out
    }

    /// Direct decision of one leader slot: `Skip` on a quorum of blame,
    /// `Commit` of the first certified block at the slot, undecided
    /// otherwise.
    fn try_direct_decide(
        &self,
        leader: Slot,
        dag: &DagState,
        committee: &Committee,
    ) -> (r: Option<DecidedLeader>)
        requires
            dag.wf(*committee),
            leader.round >= 1,
            leader.round + 2 <= u32::MAX,
        ensures
            match r {
                Some(verdict) => verdict.spec_slot() == leader && commit_block_ok(
                    verdict,
                    dag.spec_blocks(),
                ) && slot_decided(dag.spec_blocks(), leader, *committee) && verdict_matches(
                    dag.spec_blocks(),
                    leader,
                    *committee,
                    verdict,
                ),
                None => !slot_decided(dag.spec_blocks(), leader, *committee),
            },
    {
        proof {
            committee.wf_facts();
        }
        let ghost blocks = dag.spec_blocks();
        let ghost size = committee.spec_size();
        let voting_round = leader.round + 1;
        let threshold = committee.quorum_threshold();
        // Blame: stake of voting-round blocks that do not link to the slot.
        let mut blame = StakeAggregator::new(committee);
        let mut i: usize = 0;
        let n = dag_len(dag);
        proof {
            assert(blame.spec_included() =~= blame_marks_prefix(blocks, leader, size, 0));
        }
        while i < n
            invariant
                0 <= i <= n,
                n == blocks.len(),
                blocks == dag.spec_blocks(),
                size == committee.spec_size(),
                dag.wf(*committee),
                voting_round == leader.round + 1,
                threshold == committee.spec_quorum_threshold(),
                blame.wf(*committee),
                blame.spec_included() =~= blame_marks_prefix(blocks, leader, size, i as int),
            decreases n - i,
        {
            proof {
                assert(valid_block(blocks[i as int], size));
                lemma_blame_marks_step(blocks, leader, size, i as int);
            }
            let b = dag_block_at(dag, i);
            if b.round() == voting_round && !Self::block_links_to_slot(&b, leader) {
                let _ = blame.add(b.author(), committee, threshold);
            }
            i = i + 1;
        }
        proof {
            assert(blame_marks_prefix(blocks, leader, size, n as int) =~= blame_marks(
                blocks,
                leader,
                size,
            ));
        }
        if blame.stake(committee) >= threshold {
            proof {
                assert(skip_decided(blocks, leader, *committee));
            }
            return Some(DecidedLeader::Skip(leader));
        }
        proof {
            assert(!skip_decided(blocks, leader, *committee));
        }
        // Support: the first leader block certified by a quorum of
        // decision-round blocks is committed.
        let mut li: usize = 0;
        while li < n
            invariant
                0 <= li <= n,
                n == blocks.len(),
                blocks == dag.spec_blocks(),
                size == committee.spec_size(),
                dag.wf(*committee),
                leader.round + 2 <= u32::MAX,
                !skip_decided(blocks, leader, *committee),
                forall|k: int|
                    0 <= k < li ==> !(at_slot(#[trigger] blocks[k], leader) && enough_support_spec(
                        blocks,
                        blocks[k],
                        *committee,
                    )),
            decreases n - li,
        {
            proof {
                assert(valid_block(blocks[li as int], size));
            }
            let lb = dag_block_at(dag, li);
            if lb.round() == leader.round && lb.author() == leader.authority {
                if self.enough_support(&lb, dag, committee) {
                    proof {
                        assert(block_in(blocks, lb));
                        assert(is_first_supported(blocks, leader, *committee, lb));
                    }
                    return Some(DecidedLeader::Commit(lb));
                }
            }
            li = li + 1;
        }
        proof {
            assert(!commit_decided(blocks, leader, *committee));
        }
        None
    }

    /// Whether a quorum of decision-round blocks certify `lb`.
    fn enough_support(&self, lb: &VerifiedBlock, dag: &DagState, committee: &Committee) -> (r:
        bool)
        requires
            dag.wf(*committee),
            lb.spec_block().round + 2 <= u32::MAX,
        ensures
            r == enough_support_spec(dag.spec_blocks(), *lb, *committee),
    {
        proof {
            committee.wf_facts();
        }
        let ghost blocks = dag.spec_blocks();
        let ghost size = committee.spec_size();
        let decision_round = lb.round() + 2;
        let threshold = committee.quorum_threshold();
        let mut certs = StakeAggregator::new(committee);
        let mut i: usize = 0;
        let n = dag_len(dag);
        proof {
            assert(certs.spec_included() =~= cert_marks_prefix(blocks, *lb, *committee, 0));
        }
        while i < n
            invariant
                0 <= i <= n,
                n == blocks.len(),
                blocks == dag.spec_blocks(),
                size == committee.spec_size(),
                dag.wf(*committee),
                certs.wf(*committee),
                lb.spec_block().round + 2 <= u32::MAX,
                decision_round == lb.spec_block().round + 2,
                threshold == committee.spec_quorum_threshold(),
                certs.spec_included() =~= cert_marks_prefix(blocks, *lb, *committee, i as int),
            decreases n - i,
        {
            proof {
                assert(valid_block(blocks[i as int], size));
                lemma_cert_marks_step(blocks, *lb, *committee, i as int);
            }
            let db = dag_block_at(dag, i);
            if db.round() == decision_round {
                if Self::is_certificate(&db, lb, dag, committee) {
                    let _ = certs.add(db.author(), committee, threshold);
                }
            }
            i = i + 1;
        }
        certs.stake(committee) >= threshold
    }

    /// Whether `db` is a certificate for the leader block `lb`: its ancestors
    /// at the voting round whose blocks vote for `lb` carry a quorum of
    /// stake.
    fn is_certificate(
        db: &VerifiedBlock,
        lb: &VerifiedBlock,
        dag: &DagState,
        committee: &Committee,
    ) -> (r: bool)
        requires
            dag.wf(*committee),
            valid_block(*db, committee.spec_size()),
            lb.spec_block().round + 1 <= u32::MAX,
        ensures
            r == is_certificate_spec(dag.spec_blocks(), *db, *lb, *committee),
    {
        proof {
            committee.wf_facts();
        }
        let ghost blocks = dag.spec_blocks();
        let ghost size = committee.spec_size();
        let voting_round = lb.round() + 1;
        let leader_ref = lb.reference();
        let threshold = committee.quorum_threshold();
        let mut votes = StakeAggregator::new(committee);
        let ancestors = db.ancestors();
        let mut j: usize = 0;
        let m = ancestors.len();
        proof {
            assert(votes.spec_included() =~= vote_marks_prefix(blocks, *db, leader_ref, size, 0));
        }
        while j < m
            invariant
                0 <= j <= m,
                m == ancestors@.len(),
                ancestors@ == db.spec_block().ancestors@,
                blocks == dag.spec_blocks(),
                size == committee.spec_size(),
                valid_block(*db, committee.spec_size()),
                dag.wf(*committee),
                votes.wf(*committee),
                voting_round == leader_ref.round + 1,
                leader_ref == lb.spec_reference(),
                threshold == committee.spec_quorum_threshold(),
                votes.spec_included() =~= vote_marks_prefix(blocks, *db, leader_ref, size, j as int),
            decreases m - j,
        {
            proof {
                assert((db.spec_block().ancestors@[j as int].author as nat) < size);
                lemma_vote_marks_step(blocks, *db, leader_ref, size, j as int);
            }
            let anc = ancestors[j];
            if anc.round == voting_round {
                match dag.get_block(&anc) {
                    Some(vote_block) => {
                        if Self::block_links_to_ref(&vote_block, &leader_ref) {
                            proof {
                                let wi = choose|wi: int|
                                    0 <= wi < blocks.len() && blocks[wi] == vote_block;
                                assert(blocks[wi].spec_reference() == anc && links_to_ref(
                                    blocks[wi],
                                    leader_ref,
                                ));
                            }
                            let _ = votes.add(anc.author, committee, threshold);
                        } else {
                            proof {
                                // A duplicate-free DAG holds one block per
                                // reference, so no other block casts this
                                // vote.
                                if exists|wi: int|
                                    0 <= wi < blocks.len() && (
                                    #[trigger] blocks[wi]).spec_reference() == anc && links_to_ref(
                                        blocks[wi],
                                        leader_ref,
                                    ) {
                                    let wi = choose|wi: int|
                                        0 <= wi < blocks.len() && (
                                        #[trigger] blocks[wi]).spec_reference() == anc
                                            && links_to_ref(blocks[wi], leader_ref);
                                    crate::dag_state::lemma_same_ref_same_block(
                                        blocks,
                                        blocks[wi],
                                        vote_block,
                                    );
                                    assert(false);
                                }
                            }
                        }
                    },
                    None => {
                        proof {
                            assert(!ref_present(blocks, anc));
                        }
                    },
                }
            }
            j = j + 1;
        }
        proof {
            assert(vote_marks_prefix(blocks, *db, leader_ref, size, m as int) =~= vote_marks(
                blocks,
                *db,
                leader_ref,
                size,
            ));
        }
        votes.stake(committee) >= threshold
    }

    fn block_links_to_slot(b: &VerifiedBlock, slot: Slot) -> (r: bool)
        ensures
            r == links_to_slot(*b, slot),
    {
        let ancestors = b.ancestors();
        let mut j: usize = 0;
        let m = ancestors.len();
        while j < m
            invariant
                0 <= j <= m,
                m == ancestors@.len(),
                ancestors@ == b.spec_block().ancestors@,
                forall|k: int|
                    0 <= k < j ==> !((#[trigger] ancestors@[k]).round == slot.round
                        && ancestors@[k].author == slot.authority),
            decreases m - j,
        {
            if ancestors[j].round == slot.round && ancestors[j].author == slot.authority {
                return true;
            }
            j = j + 1;
        }
        false
    }

    fn block_links_to_ref(b: &VerifiedBlock, r: &BlockRef) -> (res: bool)
        ensures
            res == links_to_ref(*b, *r),
    {
        let ancestors = b.ancestors();
        let mut j: usize = 0;
        let m = ancestors.len();
        while j < m
            invariant
                0 <= j <= m,
                m == ancestors@.len(),
                ancestors@ == b.spec_block().ancestors@,
                forall|k: int| 0 <= k < j ==> (#[trigger] ancestors@[k]) != *r,
            decreases m - j,
        {
            if ancestors[j] == *r {
                return true;
            }
            j = j + 1;
        }
        false
    }
}

/// Length of the DAG's block list.
fn dag_len(dag: &DagState) -> (r: usize)
    ensures
        r == dag.spec_blocks().len(),
{
    dag.blocks_len()
}

/// The `i`-th accepted block.
fn dag_block_at(dag: &DagState, i: usize) -> (r: VerifiedBlock)
    requires
        i < dag.spec_blocks().len(),
    ensures
        r == dag.spec_blocks()[i as int],
{
    dag.block_at(i)
}

} // verus!
