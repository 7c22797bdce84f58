//! Committee of authorities with voting stakes, and the stake aggregator used
//! for quorum accounting.

use vstd::prelude::*;

verus! {

/// Sum of a sequence of stakes, as an unbounded integer.
pub open spec fn sum_stakes(s: Seq<u64>) -> int
    decreases s.len(),
{
    if s.len() == 0 {
        0
    } else {
        sum_stakes(s.drop_last()) + s.last()
    }
}

/// Sum of the stakes of the selected authorities: `sel[i]` tells whether
/// authority `i` is counted.
pub open spec fn selected_stake(sel: Seq<bool>, stakes: Seq<u64>) -> int
    decreases sel.len(),
{
    if sel.len() == 0 {
        0
    } else {
        selected_stake(sel.drop_last(), stakes.drop_last()) + if sel.last() {
            stakes.last() as int
        } else {
            0
        }
    }
}

pub proof fn lemma_sum_stakes_nonneg(s: Seq<u64>)
    ensures
        sum_stakes(s) >= 0,
    decreases s.len(),
{
    if s.len() > 0 {
        lemma_sum_stakes_nonneg(s.drop_last());
    }
}

pub proof fn lemma_selected_stake_bounds(sel: Seq<bool>, stakes: Seq<u64>)
    requires
        sel.len() == stakes.len(),
    ensures
        0 <= selected_stake(sel, stakes) <= sum_stakes(stakes),
    decreases sel.len(),
{
    if sel.len() > 0 {
        lemma_selected_stake_bounds(sel.drop_last(), stakes.drop_last());
    }
}

/// Setting one selection entry from `false` to `true` adds exactly that
/// authority's stake.
pub proof fn lemma_selected_stake_set_true(sel: Seq<bool>, stakes: Seq<u64>, i: int)
    requires
        sel.len() == stakes.len(),
        0 <= i < sel.len(),
        !sel[i],
    ensures
        selected_stake(sel.update(i, true), stakes) == selected_stake(sel, stakes) + stakes[i],
    decreases sel.len(),
{
    let upd = sel.update(i, true);
    if i == sel.len() - 1 {
        assert(upd.drop_last() =~= sel.drop_last());
    } else {
        assert(upd.drop_last() =~= sel.drop_last().update(i, true));
        lemma_selected_stake_set_true(sel.drop_last(), stakes.drop_last(), i);
    }
}

/// A selection that is pointwise covered by another has no more stake.
pub proof fn lemma_selected_stake_monotone(a: Seq<bool>, b: Seq<bool>, stakes: Seq<u64>)
    requires
        a.len() == stakes.len(),
        b.len() == stakes.len(),
        forall|i: int| 0 <= i < a.len() && a[i] ==> b[i],
    ensures
        selected_stake(a, stakes) <= selected_stake(b, stakes),
    decreases a.len(),
{
    if a.len() > 0 {
        assert(forall|i: int|
            0 <= i < a.len() - 1 && a.drop_last()[i] ==> b.drop_last()[i]) by {
            assert(forall|i: int| 0 <= i < a.len() - 1 ==> a.drop_last()[i] == a[i]);
        }
        lemma_selected_stake_monotone(a.drop_last(), b.drop_last(), stakes.drop_last());
    }
}

/// The committee of an epoch: one positive stake per authority.
///
/// Authorities are identified by their index in `[0, size)`.
pub struct Committee {
    epoch: u64,
    stakes: Vec<u64>,
    total_stake: u64,
}

impl Committee {
    /// Well-formedness: at least one authority, positive stakes, and a cached
    /// total that matches and leaves room for the threshold arithmetic.
    pub closed spec fn wf(&self) -> bool {
        &&& self.stakes@.len() >= 1
        &&& self.stakes@.len() <= u32::MAX
        &&& forall|i: int| 0 <= i < self.stakes@.len() ==> self.stakes@[i] >= 1
        &&& self.total_stake == sum_stakes(self.stakes@)
        &&& self.total_stake <= u64::MAX / 2
    }

    pub closed spec fn spec_epoch(&self) -> u64 {
        self.epoch
    }

    pub closed spec fn spec_stakes(&self) -> Seq<u64> {
        self.stakes@
    }

    pub open spec fn spec_size(&self) -> nat {
        self.spec_stakes().len()
    }

    pub open spec fn spec_total_stake(&self) -> int {
        sum_stakes(self.spec_stakes())
    }

    /// The quorum threshold of the committee: strictly more than two thirds of
    /// the total stake.
    pub open spec fn spec_quorum_threshold(&self) -> int {
        2 * self.spec_total_stake() / 3 + 1
    }

    /// The validity threshold: strictly more than one third of the total
    /// stake.
    pub open spec fn spec_validity_threshold(&self) -> int {
        self.spec_total_stake() / 3 + 1
    }

    /// The facts a well-formed committee guarantees, for use outside this
    /// module.
    pub proof fn wf_facts(&self)
        requires
            self.wf(),
        ensures
            1 <= self.spec_size() <= u32::MAX,
            forall|i: int| 0 <= i < self.spec_size() ==> self.spec_stakes()[i] >= 1,
            0 <= self.spec_total_stake() <= u64::MAX / 2,
            1 <= self.spec_quorum_threshold() <= self.spec_total_stake(),
            1 <= self.spec_validity_threshold() <= self.spec_quorum_threshold(),
    {
        lemma_sum_stakes_nonneg(self.spec_stakes());
        if self.spec_total_stake() < 1 {
            assert(self.spec_stakes().drop_last().len() == self.spec_stakes().len() - 1);
            lemma_sum_stakes_nonneg(self.spec_stakes().drop_last());
        }
    }

    /// New committee from one positive stake per authority.
    pub fn new(epoch: u64, stakes: Vec<u64>) -> (r: Committee)
        requires
            stakes@.len() >= 1,
            stakes@.len() <= u32::MAX,
            forall|i: int| 0 <= i < stakes@.len() ==> stakes@[i] >= 1,
            sum_stakes(stakes@) <= u64::MAX / 2,
        ensures
            r.wf(),
            r.spec_epoch() == epoch,
            r.spec_stakes() == stakes@,
    {
        let mut total: u64 = 0;
        let mut i: usize = 0;
        proof {
            assert(stakes@.take(0) =~= Seq::<u64>::empty());
        }
        while i < stakes.len()
            invariant
                0 <= i <= stakes@.len(),
                stakes@.len() <= u32::MAX,
                forall|k: int| 0 <= k < stakes@.len() ==> stakes@[k] >= 1,
                sum_stakes(stakes@) <= u64::MAX / 2,
                total == sum_stakes(stakes@.take(i as int)),
            decreases stakes@.len() - i,
        {
            proof {
                assert(stakes@.take(i + 1).drop_last() =~= stakes@.take(i as int));
                lemma_sum_stakes_nonneg(stakes@.take(i as int));
                lemma_take_sum_le(stakes@, i + 1);
            }
            total = total + stakes[i];
            i = i + 1;
        }
        proof {
            assert(stakes@.take(stakes@.len() as int) =~= stakes@);
        }
        Committee { epoch, stakes, total_stake: total }
    }

    pub fn epoch(&self) -> (r: u64)
        ensures
            r == self.spec_epoch(),
    {
        self.epoch
    }

    /// Number of authorities in the committee.
    pub fn size(&self) -> (r: usize)
        ensures
            r == self.spec_size(),
    {
        self.stakes.len()
    }

    /// The stake of one authority.
    pub fn stake(&self, authority: u32) -> (r: u64)
        requires
            self.wf(),
            authority < self.spec_size(),
        ensures
            r == self.spec_stakes()[authority as int],
    {
        self.stakes[authority as usize]
    }

    pub fn total_stake(&self) -> (r: u64)
        requires
            self.wf(),
        ensures
            r == self.spec_total_stake(),
    {
        self.total_stake
    }

    pub fn quorum_threshold(&self) -> (r: u64)
        requires
            self.wf(),
        ensures
            r == self.spec_quorum_threshold(),
    {
        proof {
            lemma_sum_stakes_nonneg(self.stakes@);
        }
        2 * self.total_stake / 3 + 1
    }

    pub fn validity_threshold(&self) -> (r: u64)
        requires
            self.wf(),
        ensures
            r == self.spec_validity_threshold(),
    {
        proof {
            lemma_sum_stakes_nonneg(self.stakes@);
        }
        self.total_stake / 3 + 1
    }
}

proof fn lemma_take_sum_le(s: Seq<u64>, i: int)
    requires
        0 <= i <= s.len(),
    ensures
        sum_stakes(s.take(i)) <= sum_stakes(s),
    decreases s.len() - i,
{
    if i < s.len() {
        assert(s.take(i + 1).drop_last() =~= s.take(i));
        lemma_take_sum_le(s, i + 1);
    } else {
        assert(s.take(i) =~= s);
    }
}

/// Accumulates the stake of distinct authorities until a threshold is
/// reached.
pub struct StakeAggregator {
    included: Vec<bool>,
    stake: u64,
}

impl StakeAggregator {
    /// Well-formedness relative to the committee the votes come from.
    pub closed spec fn wf(&self, committee: Committee) -> bool {
        &&& committee.wf()
        &&& self.included@.len() == committee.spec_size()
        &&& self.stake == selected_stake(self.included@, committee.spec_stakes())
    }

    /// Which authorities have been counted.
    pub closed spec fn spec_included(&self) -> Seq<bool> {
        self.included@
    }

    pub open spec fn spec_stake(&self, committee: Committee) -> int {
        selected_stake(self.spec_included(), committee.spec_stakes())
    }

    /// Empty aggregator for the given committee.
    pub fn new(committee: &Committee) -> (r: StakeAggregator)
        requires
            committee.wf(),
        ensures
            r.wf(*committee),
            r.spec_included() =~= Seq::new(committee.spec_size(), |i: int| false),
    {
        let n = committee.size();
        let mut included: Vec<bool> = Vec::new();
        let mut i: usize = 0;
        while i < n
            invariant
                0 <= i <= n,
                included@.len() == i,
                forall|k: int| 0 <= k < i ==> !included@[k],
            decreases n - i,
        {
            included.push(false);
            i = i + 1;
        }
        proof {
            lemma_all_false_stake(included@, committee.spec_stakes());
        }
        StakeAggregator { included, stake: 0 }
    }

    /// Count `authority` once; returns whether the accumulated stake now
    /// reaches `threshold`.
    pub fn add(&mut self, authority: u32, committee: &Committee, threshold: u64) -> (r: bool)
        requires
            old(self).wf(*committee),
            authority < committee.spec_size(),
        ensures
            final(self).wf(*committee),
            final(self).spec_included() =~= old(self).spec_included().update(
                authority as int,
                true,
            ),
            r == (final(self).spec_stake(*committee) >= threshold),
    {
        proof {
            lemma_selected_stake_bounds(self.included@, committee.spec_stakes());
        }
        if !self.included[authority as usize] {
            proof {
                lemma_selected_stake_set_true(
                    self.included@,
                    committee.spec_stakes(),
                    authority as int,
                );
                lemma_selected_stake_bounds(
                    self.included@.update(authority as int, true),
                    committee.spec_stakes(),
                );
            }
            self.included.set(authority as usize, true);
            self.stake = self.stake + committee.stake(authority);
        } else {
            proof {
                assert(self.included@.update(authority as int, true) =~= self.included@);
            }
        }
        self.stake >= threshold
    }

    /// The accumulated stake so far.
    pub fn stake(&self, committee: &Committee) -> (r: u64)
        requires
            self.wf(*committee),
        ensures
            r == self.spec_stake(*committee),
    {
        self.stake
    }
}

/// All authorities selected: the selected stake is the whole stake.
pub proof fn lemma_all_true_stake(sel: Seq<bool>, stakes: Seq<u64>)
    requires
        sel.len() == stakes.len(),
        forall|i: int| 0 <= i < sel.len() ==> sel[i],
    ensures
        selected_stake(sel, stakes) == sum_stakes(stakes),
    decreases sel.len(),
{
    if sel.len() > 0 {
        lemma_all_true_stake(sel.drop_last(), stakes.drop_last());
    }
}

/// The per-validator context: the committee and this validator's own index.
pub struct Context {
    pub committee: Committee,
    pub own_index: u32,
}

impl Context {
    pub open spec fn wf(&self) -> bool {
        &&& self.committee.wf()
        &&& (self.own_index as int) < self.committee.spec_size()
    }

    pub fn new(committee: Committee, own_index: u32) -> (r: Context)
        requires
            committee.wf(),
            (own_index as int) < committee.spec_size(),
        ensures
            r.wf(),
            r.committee == committee,
            r.own_index == own_index,
    {
        Context { committee, own_index }
    }
}

/// No authority selected: no stake.
pub proof fn lemma_all_false_stake(sel: Seq<bool>, stakes: Seq<u64>)
    requires
        sel.len() == stakes.len(),
        forall|i: int| 0 <= i < sel.len() ==> !sel[i],
    ensures
        selected_stake(sel, stakes) == 0,
    decreases sel.len(),
{
    if sel.len() > 0 {
        lemma_all_false_stake(sel.drop_last(), stakes.drop_last());
    }
}

} // verus!
