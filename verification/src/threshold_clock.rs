//! The threshold clock: a DAG-derived logical clock that advances to round
//! `r + 1` once a quorum of distinct authorities' references at round `r` has
//! been observed.

use vstd::prelude::*;

use crate::block::BlockRef;
use crate::committee::{selected_stake, Committee, StakeAggregator};

verus! {

/// One observation step of the clock, as a `(round, included)` pair:
/// a reference below the current round is ignored; one above jumps the clock;
/// one at the current round is aggregated; reaching quorum advances the clock
/// and resets the aggregation.
pub open spec fn clock_step(
    round: u32,
    included: Seq<bool>,
    r: BlockRef,
    committee: Committee,
) -> (u32, Seq<bool>) {
    if r.round < round {
        (round, included)
    } else {
        let base_round = r.round;
        let base_included = if r.round > round {
            Seq::new(committee.spec_size(), |i: int| false)
        } else {
            included
        };
        let next_included = base_included.update(r.author as int, true);
        if selected_stake(next_included, committee.spec_stakes())
            >= committee.spec_quorum_threshold() {
            ((base_round + 1) as u32, Seq::new(committee.spec_size(), |i: int| false))
        } else {
            (base_round, next_included)
        }
    }
}

/// The clock state after observing a sequence of references in order.
pub open spec fn clock_fold(
    round: u32,
    included: Seq<bool>,
    refs: Seq<BlockRef>,
    committee: Committee,
) -> (u32, Seq<bool>)
    decreases refs.len(),
{
    if refs.len() == 0 {
        (round, included)
    } else {
        let first = clock_step(round, included, refs.first(), committee);
        clock_fold(first.0, first.1, refs.drop_first(), committee)
    }
}

/// One step never decreases the round.
pub proof fn lemma_clock_step_monotone(
    round: u32,
    included: Seq<bool>,
    r: BlockRef,
    committee: Committee,
)
    requires
        r.round < u32::MAX,
    ensures
        clock_step(round, included, r, committee).0 >= round,
{
}

/// A fold never decreases the round.
pub proof fn lemma_clock_fold_monotone(
    round: u32,
    included: Seq<bool>,
    refs: Seq<BlockRef>,
    committee: Committee,
)
    requires
        forall|i: int| 0 <= i < refs.len() ==> (#[trigger] refs[i]).round < u32::MAX,
    ensures
        clock_fold(round, included, refs, committee).0 >= round,
    decreases refs.len(),
{
    if refs.len() > 0 {
        let first = clock_step(round, included, refs.first(), committee);
        lemma_clock_step_monotone(round, included, refs.first(), committee);
        lemma_clock_fold_monotone(first.0, first.1, refs.drop_first(), committee);
    }
}

/// The threshold clock of one core.
pub struct ThresholdClock {
    round: u32,
    aggregator: StakeAggregator,
}

impl ThresholdClock {
    pub closed spec fn spec_round(&self) -> u32 {
        self.round
    }

    pub closed spec fn spec_included(&self) -> Seq<bool> {
        self.aggregator.spec_included()
    }

    pub closed spec fn wf(&self, committee: Committee) -> bool {
        &&& committee.wf()
        &&& self.aggregator.wf(committee)
    }

    pub fn new(round: u32, committee: &Committee) -> (r: ThresholdClock)
        requires
            committee.wf(),
        ensures
            r.wf(*committee),
            r.spec_round() == round,
            r.spec_included() =~= Seq::new(committee.spec_size(), |i: int| false),
    {
        ThresholdClock { round, aggregator: StakeAggregator::new(committee) }
    }

    pub fn get_round(&self) -> (r: u32)
        ensures
            r == self.spec_round(),
    {
        self.round
    }

    /// Observe one block reference.
    pub fn add_block(&mut self, r: BlockRef, committee: &Committee)
        requires
            old(self).wf(*committee),
            r.round < u32::MAX,
            r.author < committee.spec_size(),
        ensures
            final(self).wf(*committee),
            (final(self).spec_round(), final(self).spec_included()) == clock_step(
                old(self).spec_round(),
                old(self).spec_included(),
                r,
                *committee,
            ),
    {
        let ghost step = clock_step(self.round, self.aggregator.spec_included(), r, *committee);
        if r.round < self.round {
            return ;
        }
        if r.round > self.round {
            self.aggregator = StakeAggregator::new(committee);
            self.round = r.round;
        }
        let threshold = committee.quorum_threshold();
        let reached = self.aggregator.add(r.author, committee, threshold);
        if reached {
            self.round = self.round + 1;
            self.aggregator = StakeAggregator::new(committee);
        }
        proof {
            assert((self.spec_round(), self.spec_included()) =~= step);
        }
    }

    /// Observe a batch of block references; returns the new round if the
    /// clock advanced during the batch.
    pub fn add_blocks(&mut self, refs: &Vec<BlockRef>, committee: &Committee) -> (r: Option<u32>)
        requires
            old(self).wf(*committee),
            forall|i: int| 0 <= i < refs@.len() ==> (#[trigger] refs@[i]).round < u32::MAX,
            forall|i: int|
                0 <= i < refs@.len() ==> (#[trigger] refs@[i]).author < committee.spec_size(),
        ensures
            final(self).wf(*committee),
            (final(self).spec_round(), final(self).spec_included()) == clock_fold(
                old(self).spec_round(),
                old(self).spec_included(),
                refs@,
                *committee,
            ),
            final(self).spec_round() >= old(self).spec_round(),
            r == if final(self).spec_round() > old(self).spec_round() {
                Some(final(self).spec_round())
            } else {
                None::<u32>
            },
    {
        let start_round = self.round;
        let ghost start_included = self.aggregator.spec_included();
        proof {
            assert(refs@.skip(0) =~= refs@);
        }
        let mut i: usize = 0;
        let n = refs.len();
        while i < n
            invariant
                0 <= i <= n,
                n == refs@.len(),
                committee.wf(),
                self.wf(*committee),
                forall|k: int| 0 <= k < refs@.len() ==> (#[trigger] refs@[k]).round < u32::MAX,
                forall|k: int|
                    0 <= k < refs@.len() ==> (#[trigger] refs@[k]).author < committee.spec_size(),
                clock_fold(start_round, start_included, refs@, *committee) == clock_fold(
                    self.spec_round(),
                    self.spec_included(),
                    refs@.skip(i as int),
                    *committee,
                ),
                self.spec_round() >= start_round,
            decreases n - i,
        {
            let ghost pre_round = self.spec_round();
            let ghost pre_included = self.spec_included();
            proof {
                assert(refs@.skip(i as int).first() == refs@[i as int]);
                assert(refs@.skip(i as int).drop_first() =~= refs@.skip(i + 1));
            }
            self.add_block(refs[i], committee);
            proof {
                assert(clock_fold(pre_round, pre_included, refs@.skip(i as int), *committee)
                    == clock_fold(
                    self.spec_round(),
                    self.spec_included(),
                    refs@.skip(i + 1),
                    *committee,
                ));
            }
            i = i + 1;
        }
        proof {
            assert(refs@.skip(n as int) =~= Seq::<BlockRef>::empty());
        }
        if self.round > start_round {
            Some(self.round)
        } else {
            None
        }
    }
}

} // verus!
