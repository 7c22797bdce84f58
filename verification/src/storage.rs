//! Consensus storage: the commit record, the atomic write batch, and an
//! in-memory store.

use vstd::prelude::*;

use crate::block::{BlockRef, VerifiedBlock};
use crate::error::ConsensusError;

verus! {

/// Index of a commit in the total order, starting at 1.
pub type CommitIndex = u64;

/// The owned contents of a commit record.
pub struct CommitInner {
    pub index: CommitIndex,
    pub leader: BlockRef,
    pub blocks: Vec<BlockRef>,
}

/// Relies on std's Arc::clone: the returned handle points to the same
/// allocation, so it carries the same value.
#[verifier::external_body]
fn share_commit(c: &std::sync::Arc<CommitInner>) -> (r: std::sync::Arc<CommitInner>)
    ensures
        r == *c,
{
    c.clone()
}

/// A committed leader with the references of its committed sub-DAG, shared by
/// handle so that clones are cheap.
pub struct TrustedCommit {
    inner: std::sync::Arc<CommitInner>,
}

impl TrustedCommit {
    pub closed spec fn spec_inner(&self) -> CommitInner {
        *self.inner
    }

    pub open spec fn spec_index(&self) -> CommitIndex {
        self.spec_inner().index
    }

    pub open spec fn spec_leader(&self) -> BlockRef {
        self.spec_inner().leader
    }

    pub open spec fn spec_blocks(&self) -> Seq<BlockRef> {
        self.spec_inner().blocks@
    }

    pub fn new(index: CommitIndex, leader: BlockRef, blocks: Vec<BlockRef>) -> (r: TrustedCommit)
        ensures
            r.spec_index() == index,
            r.spec_leader() == leader,
            r.spec_blocks() == blocks@,
    {
        TrustedCommit { inner: std::sync::Arc::new(CommitInner { index, leader, blocks }) }
    }

    pub fn index(&self) -> (r: CommitIndex)
        ensures
            r == self.spec_index(),
    {
        self.inner.index
    }

    pub fn leader(&self) -> (r: BlockRef)
        ensures
            r == self.spec_leader(),
    {
        self.inner.leader
    }

    pub fn blocks(&self) -> (r: &Vec<BlockRef>)
        ensures
            r@ == self.spec_blocks(),
    {
        &self.inner.blocks
    }
}

impl Clone for TrustedCommit {
    fn clone(&self) -> (r: Self)
        ensures
            r == *self,
    {
        TrustedCommit { inner: share_commit(&self.inner) }
    }
}

/// Data to be written to the store together atomically.
pub struct WriteBatch {
    pub blocks: Vec<VerifiedBlock>,
    pub commits: Vec<TrustedCommit>,
    pub last_committed_rounds: Vec<u32>,
}

impl WriteBatch {
    pub fn new(
        blocks: Vec<VerifiedBlock>,
        commits: Vec<TrustedCommit>,
        last_committed_rounds: Vec<u32>,
    ) -> (r: WriteBatch)
        ensures
            r.blocks@ == blocks@,
            r.commits@ == commits@,
            r.last_committed_rounds@ == last_committed_rounds@,
    {
        WriteBatch { blocks, commits, last_committed_rounds }
    }

    /// Replace the blocks of the batch.
    pub fn blocks(self, blocks: Vec<VerifiedBlock>) -> (r: WriteBatch)
        ensures
            r.blocks@ == blocks@,
            r.commits@ == self.commits@,
            r.last_committed_rounds@ == self.last_committed_rounds@,
    {
        WriteBatch { blocks, ..self }
    }

    /// Replace the commits of the batch.
    pub fn commits(self, commits: Vec<TrustedCommit>) -> (r: WriteBatch)
        ensures
            r.blocks@ == self.blocks@,
            r.commits@ == commits@,
            r.last_committed_rounds@ == self.last_committed_rounds@,
    {
        WriteBatch { commits, ..self }
    }
}

impl Default for WriteBatch {
    fn default() -> (r: Self)
        ensures
            r.blocks@.len() == 0,
            r.commits@.len() == 0,
            r.last_committed_rounds@.len() == 0,
    {
        WriteBatch { blocks: Vec::new(), commits: Vec::new(), last_committed_rounds: Vec::new() }
    }
}

/// Per-commit properties that can be derived from the commit sequence: the
/// last committed round of every authority.
pub struct CommitInfo {
    pub last_committed_rounds: Vec<u32>,
}

/// An in-memory consensus store.
pub struct MemStore {
    blocks: Vec<VerifiedBlock>,
    commits: Vec<TrustedCommit>,
    commit_info: Option<CommitInfo>,
}

impl MemStore {
    /// Every block in the store carries a coherent serialization and digest.
    pub open spec fn wf(&self) -> bool {
        forall|i: int| 0 <= i < self.spec_blocks().len() ==> (#[trigger] self.spec_blocks()[i]).wf()
    }

    pub closed spec fn spec_blocks(&self) -> Seq<VerifiedBlock> {
        self.blocks@
    }

    pub closed spec fn spec_commits(&self) -> Seq<TrustedCommit> {
        self.commits@
    }

    pub closed spec fn spec_commit_info(&self) -> Option<Seq<u32>> {
        match self.commit_info {
            Some(info) => Some(info.last_committed_rounds@),
            None => None,
        }
    }

    pub fn new() -> (r: MemStore)
        ensures
            r.wf(),
            r.spec_blocks().len() == 0,
            r.spec_commits().len() == 0,
            r.spec_commit_info() is None,
    {
        MemStore { blocks: Vec::new(), commits: Vec::new(), commit_info: None }
    }

    /// Write blocks, commits and commit info to the store atomically.
    ///
    /// The in-memory store cannot fail; the `Result` mirrors the storage
    /// interface.
    pub fn write(&mut self, write_batch: WriteBatch) -> (r: Result<(), ConsensusError>)
        requires
            forall|i: int|
                0 <= i < write_batch.blocks@.len() ==> (#[trigger] write_batch.blocks@[i]).wf(),
        ensures
            r is Ok,
            old(self).wf() ==> final(self).wf(),
            final(self).spec_blocks() == old(self).spec_blocks() + write_batch.blocks@,
            final(self).spec_commits() == old(self).spec_commits() + write_batch.commits@,
            final(self).spec_commit_info() == if write_batch.last_committed_rounds@.len() > 0 {
                Some(write_batch.last_committed_rounds@)
            } else {
                old(self).spec_commit_info()
            },
    {
        let WriteBatch { mut blocks, mut commits, last_committed_rounds } = write_batch;
        let ghost old_blocks = self.blocks@;
        let ghost old_commits = self.commits@;
        let mut i: usize = 0;
        let n = blocks.len();
        while i < n
            invariant
                0 <= i <= n,
                n == blocks@.len(),
                self.blocks@ =~= old_blocks + blocks@.take(i as int),
                self.commits@ == old_commits,
                self.commit_info == old(self).commit_info,
            decreases n - i,
        {
            proof {
                assert(blocks@.take(i + 1).drop_last() =~= blocks@.take(i as int));
            }
            let b = blocks[i].clone();
            self.blocks.push(b);
            i = i + 1;
        }
        proof {
            assert(blocks@.take(n as int) =~= blocks@);
        }
        let mut j: usize = 0;
        let m = commits.len();
        while j < m
            invariant
                0 <= j <= m,
                m == commits@.len(),
                self.blocks@ == old_blocks + blocks@,
                self.commits@ =~= old_commits + commits@.take(j as int),
                self.commit_info == old(self).commit_info,
            decreases m - j,
        {
            proof {
                assert(commits@.take(j + 1).drop_last() =~= commits@.take(j as int));
            }
            let c = commits[j].clone();
            self.commits.push(c);
            j = j + 1;
        }
        proof {
            assert(commits@.take(m as int) =~= commits@);
        }
        if last_committed_rounds.len() > 0 {
            self.commit_info = Some(CommitInfo { last_committed_rounds });
        }
        proof {
            if old(self).wf() {
                assert forall|i: int| 0 <= i < self.spec_blocks().len() implies (
                #[trigger] self.spec_blocks()[i]).wf() by {
                    if i < old_blocks.len() {
                        assert(self.spec_blocks()[i] == old(self).spec_blocks()[i]);
                    } else {
                        assert(self.spec_blocks()[i] == blocks@[i - old_blocks.len()]);
                    }
                }
            }
        }
        Ok(())
    }

    /// The last commit written, if any.
    pub fn read_last_commit(&self) -> (r: Result<Option<TrustedCommit>, ConsensusError>)
        ensures
            r is Ok,
            match r {
                Ok(Some(c)) => self.spec_commits().len() > 0 && c == self.spec_commits().last(),
                Ok(None) => self.spec_commits().len() == 0,
                Err(_) => false,
            },
    {
        if self.commits.len() == 0 {
            Ok(None)
        } else {
            Ok(Some(self.commits[self.commits.len() - 1].clone()))
        }
    }

    /// All commits with index at least `start`, in order.
    pub fn scan_commits(&self, start: CommitIndex) -> (r: Result<
        Vec<TrustedCommit>,
        ConsensusError,
    >)
        ensures
            r is Ok,
            match r {
                Ok(v) => v@ == self.spec_commits().filter(
                    |c: TrustedCommit| c.spec_index() >= start,
                ),
                Err(_) => false,
            },
    {
        let mut out: Vec<TrustedCommit> = Vec::new();
        let mut i: usize = 0;
        let n = self.commits.len();
        proof {
            assert(self.commits@.take(0).filter(|c: TrustedCommit| c.spec_index() >= start)
                =~= Seq::<TrustedCommit>::empty());
        }
        while i < n
            invariant
                0 <= i <= n,
                n == self.commits@.len(),
                out@ =~= self.commits@.take(i as int).filter(
                    |c: TrustedCommit| c.spec_index() >= start,
                ),
            decreases n - i,
        {
            proof {
                assert(self.commits@.take(i + 1).drop_last() =~= self.commits@.take(i as int));
                reveal_with_fuel(Seq::filter, 2);
            }
            if self.commits[i].index() >= start {
                out.push(self.commits[i].clone());
            }
            i = i + 1;
        }
        proof {
            assert(self.commits@.take(n as int) =~= self.commits@);
        }
        Ok(out)
    }

    /// A copy of every block in the store, in insertion order.
    pub fn get_all_blocks(&self) -> (r: Vec<VerifiedBlock>)
        ensures
            r@ == self.spec_blocks(),
    {
        let mut out: Vec<VerifiedBlock> = Vec::new();
        let mut i: usize = 0;
        let n = self.blocks.len();
        while i < n
            invariant
                0 <= i <= n,
                n == self.blocks@.len(),
                out@ =~= self.blocks@.take(i as int),
            decreases n - i,
        {
            proof {
                assert(self.blocks@.take(i + 1).drop_last() =~= self.blocks@.take(i as int));
            }
            out.push(self.blocks[i].clone());
            i = i + 1;
        }
        proof {
            assert(self.blocks@.take(n as int) =~= self.blocks@);
        }
        out
    }

    /// The last committed round per authority, as last written.
    pub fn read_last_commit_info(&self) -> (r: Result<Option<Vec<u32>>, ConsensusError>)
        ensures
            r is Ok,
            match r {
                Ok(v) => match v {
                    Some(rounds) => self.spec_commit_info() == Some(rounds@),
                    None => self.spec_commit_info() is None,
                },
                Err(_) => false,
            },
    {
        match &self.commit_info {
            Some(info) => {
                let mut out: Vec<u32> = Vec::new();
                let mut i: usize = 0;
                let n = info.last_committed_rounds.len();
                while i < n
                    invariant
                        0 <= i <= n,
                        n == info.last_committed_rounds@.len(),
                        out@ =~= info.last_committed_rounds@.take(i as int),
                    decreases n - i,
                {
                    proof {
                        assert(info.last_committed_rounds@.take(i + 1).drop_last()
                            =~= info.last_committed_rounds@.take(i as int));
                    }
                    out.push(info.last_committed_rounds[i]);
                    i = i + 1;
                }
                proof {
                    assert(info.last_committed_rounds@.take(n as int)
                        =~= info.last_committed_rounds@);
                }
                Ok(Some(out))
            },
            None => Ok(None),
        }
    }
}

} // verus!
