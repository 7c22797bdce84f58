//! The transaction consumer: a pull interface that yields the admitted
//! transactions up to the per-block byte cap.
//!
//! Submission is a direct call at the back of the queue; the pull side takes
//! the longest prefix that fits the per-block byte cap.

use vstd::prelude::*;

use crate::block::Transaction;

verus! {

/// Total byte length of a sequence of payloads.
pub open spec fn sum_lens(txs: Seq<Seq<u8>>) -> int
    decreases txs.len(),
{
    if txs.len() == 0 {
        0
    } else {
        sum_lens(txs.drop_last()) + txs.last().len()
    }
}

pub proof fn lemma_sum_lens_nonneg(txs: Seq<Seq<u8>>)
    ensures
        sum_lens(txs) >= 0,
    decreases txs.len(),
{
    if txs.len() > 0 {
        lemma_sum_lens_nonneg(txs.drop_last());
    }
}

/// Pulls transactions to include in the next proposal.
pub struct TransactionConsumer {
    pending: Vec<Transaction>,
    max_consumed_bytes: u64,
}

impl TransactionConsumer {
    pub closed spec fn spec_pending(&self) -> Seq<Seq<u8>> {
        self.pending@.map_values(|t: Transaction| t@)
    }

    pub closed spec fn spec_max_bytes(&self) -> u64 {
        self.max_consumed_bytes
    }

    /// The queue stays within the serialization bounds: payload count and
    /// each payload length fit the length prefixes.
    pub open spec fn wf(&self) -> bool {
        &&& self.spec_pending().len() <= u32::MAX
        &&& forall|i: int|
            0 <= i < self.spec_pending().len() ==> (#[trigger] self.spec_pending()[i]).len()
                <= u32::MAX
    }

    pub fn new(max_consumed_bytes: u64) -> (r: TransactionConsumer)
        ensures
            r.wf(),
            r.spec_pending().len() == 0,
            r.spec_max_bytes() == max_consumed_bytes,
    {
        TransactionConsumer { pending: Vec::new(), max_consumed_bytes }
    }

    /// Admit one transaction payload at the back of the queue; the bounds
    /// are forced by the length-prefixed serialization.
    pub fn submit(&mut self, data: Vec<u8>)
        requires
            old(self).wf(),
            data@.len() <= u32::MAX,
            old(self).spec_pending().len() < u32::MAX,
        ensures
            final(self).wf(),
            final(self).spec_pending() == old(self).spec_pending().push(data@),
            final(self).spec_max_bytes() == old(self).spec_max_bytes(),
    {
        let ghost view = data@;
        self.pending.push(Transaction::new(data));
        proof {
            assert(self.spec_pending() =~= old(self).spec_pending().push(view));
        }
    }

    /// Pull the longest prefix of admitted transactions whose total size
    /// stays within the per-block byte cap; non-blocking, possibly empty.
    pub fn next(&mut self) -> (r: Vec<Transaction>)
        requires
            old(self).wf(),
        ensures
            final(self).wf(),
            r@.len() <= u32::MAX,
            forall|i: int| 0 <= i < r@.len() ==> (#[trigger] r@[i])@.len() <= u32::MAX,
            final(self).spec_max_bytes() == old(self).spec_max_bytes(),
            r@.len() <= old(self).spec_pending().len(),
            r@.map_values(|t: Transaction| t@) == old(self).spec_pending().take(r@.len() as int),
            final(self).spec_pending() == old(self).spec_pending().skip(r@.len() as int),
            sum_lens(old(self).spec_pending().take(r@.len() as int)) <= old(self).spec_max_bytes(),
            r@.len() < old(self).spec_pending().len() ==> sum_lens(
                old(self).spec_pending().take(r@.len() as int),
            ) + old(self).spec_pending()[r@.len() as int].len() > old(self).spec_max_bytes(),
    {
        let cap = self.max_consumed_bytes;
        let mut taken: Vec<Transaction> = Vec::new();
        let mut total: u64 = 0;
        let ghost pre = self.pending@;
        let mut k: usize = 0;
        proof {
            assert(self.spec_pending().take(0) =~= Seq::<Seq<u8>>::empty());
        }
        while k < self.pending.len()
            invariant
                0 <= k <= self.pending@.len(),
                self.pending@ == pre,
                cap == self.max_consumed_bytes,
                taken@.len() == k,
                taken@.map_values(|t: Transaction| t@) =~= self.spec_pending().take(k as int),
                total == sum_lens(self.spec_pending().take(k as int)),
                total <= cap,
            ensures
                0 <= k <= self.pending@.len(),
                self.pending@ == pre,
                cap == self.max_consumed_bytes,
                taken@.len() == k,
                taken@.map_values(|t: Transaction| t@) =~= self.spec_pending().take(k as int),
                total == sum_lens(self.spec_pending().take(k as int)),
                total <= cap,
                k < self.pending@.len() ==> sum_lens(self.spec_pending().take(k as int))
                    + self.spec_pending()[k as int].len() > cap,
            decreases self.pending@.len() - k,
        {
            let len = self.pending[k].data().len();
            if (len as u64) > cap - total {
                break ;
            }
            proof {
                assert(self.spec_pending().take(k + 1).drop_last() =~= self.spec_pending().take(
                    k as int,
                ));
                assert(self.spec_pending().take(k + 1).last() == self.spec_pending()[k as int]);
            }
            let t = self.pending[k].clone();
            proof {
                assert(t@ == self.spec_pending()[k as int]);
            }
            taken.push(t);
            total = total + (len as u64);
            k = k + 1;
            proof {
                assert(taken@.map_values(|t: Transaction| t@) =~= self.spec_pending().take(
                    k as int,
                ));
            }
        }
        proof {
            if k < self.pending@.len() {
                assert(self.spec_pending().take(k + 1).drop_last() =~= self.spec_pending().take(
                    k as int,
                ));
                assert(self.spec_pending().take(k + 1).last() == self.spec_pending()[k as int]);
            }
        }
        // Drop the consumed prefix.
        let mut rest: Vec<Transaction> = Vec::new();
        let mut i: usize = k;
        while i < self.pending.len()
            invariant
                k <= i <= self.pending@.len(),
                self.pending@ == pre,
                rest@.len() == i - k,
                forall|j: int| 0 <= j < rest@.len() ==> (#[trigger] rest@[j])@ == pre[k + j]@,
            decreases self.pending@.len() - i,
        {
            let t = self.pending[i].clone();
            rest.push(t);
            i = i + 1;
        }
        self.pending = rest;
        proof {
            assert(self.spec_pending() =~= pre.map_values(|t: Transaction| t@).skip(k as int));
            assert forall|i: int| 0 <= i < taken@.len() implies (#[trigger] taken@[i])@.len()
                <= u32::MAX by {
                assert(taken@.map_values(|t: Transaction| t@)[i] == taken@[i]@);
                assert(old(self).spec_pending().take(taken@.len() as int)[i] == old(
                    self,
                ).spec_pending()[i]);
            }
        }
        taken
    }
}

} // verus!
