//! Blocks of the DAG: references, transactions, the block record, its
//! deterministic serialization, and the verified wrapper that carries the
//! cached serialization and the content-addressed digest.

use vstd::prelude::*;

use crate::crypto::{blake2b_of, blake2b_digest, ed25519_sign};

verus! {

/// Domain separator prepended to the signed envelope before hashing.
pub const DIGEST_DOMAIN: u8 = 68;

/// A 32-byte block digest, packed into four little-endian words.
#[derive(Clone, Copy, PartialEq, Eq, Structural, Debug)]
pub struct BlockDigest {
    pub d0: u64,
    pub d1: u64,
    pub d2: u64,
    pub d3: u64,
}

/// Content-addressed reference to a block: `(round, author, digest)`.
#[derive(Clone, Copy, PartialEq, Eq, Structural, Debug)]
pub struct BlockRef {
    pub round: u32,
    pub author: u32,
    pub digest: BlockDigest,
}

/// A slot of the DAG: at most one valid block per honest authority per round.
#[derive(Clone, Copy, PartialEq, Eq, Structural, Debug)]
pub struct Slot {
    pub round: u32,
    pub authority: u32,
}

impl Slot {
    pub fn new(round: u32, authority: u32) -> (r: Slot)
        ensures
            r == (Slot { round, authority }),
    {
        Slot { round, authority }
    }

    pub fn from_block_ref(r: &BlockRef) -> (s: Slot)
        ensures
            s == (Slot { round: r.round, authority: r.author }),
    {
        Slot { round: r.round, authority: r.author }
    }
}

/// An opaque transaction payload.
pub struct Transaction {
    pub data: Vec<u8>,
}

impl View for Transaction {
    type V = Seq<u8>;

    open spec fn view(&self) -> Seq<u8> {
        self.data@
    }
}

impl Transaction {
    pub fn new(data: Vec<u8>) -> (r: Transaction)
        ensures
            r@ == data@,
    {
        Transaction { data }
    }

    pub fn data(&self) -> (r: &Vec<u8>)
        ensures
            r@ == self@,
    {
        &self.data
    }
}

impl Clone for Transaction {
    fn clone(&self) -> (r: Self)
        ensures
            r@ == self@,
    {
        Transaction { data: self.data.clone() }
    }
}

/// The immutable block record.
pub struct Block {
    pub epoch: u64,
    pub round: u32,
    pub author: u32,
    pub timestamp_ms: u64,
    pub ancestors: Vec<BlockRef>,
    pub transactions: Vec<Transaction>,
}

impl Block {
    /// Bounds forced by the length-prefixed serialization, and room for the
    /// threshold clock to advance past this block's round.
    pub open spec fn wf(&self) -> bool {
        &&& self.round < u32::MAX
        &&& self.ancestors@.len() <= u32::MAX
        &&& self.transactions@.len() <= u32::MAX
        &&& forall|i: int|
            0 <= i < self.transactions@.len() ==> self.transactions@[i]@.len() <= u32::MAX
    }

    /// The views of the transaction payloads.
    pub open spec fn spec_tx_views(&self) -> Seq<Seq<u8>> {
        self.transactions@.map_values(|t: Transaction| t@)
    }
}

/// Little-endian bytes of a `u64`.
pub open spec fn u64_le(x: u64) -> Seq<u8> {
    seq![
        (x & 0xff) as u8,
        ((x >> 8) & 0xff) as u8,
        ((x >> 16) & 0xff) as u8,
        ((x >> 24) & 0xff) as u8,
        ((x >> 32) & 0xff) as u8,
        ((x >> 40) & 0xff) as u8,
        ((x >> 48) & 0xff) as u8,
        ((x >> 56) & 0xff) as u8,
    ]
}

/// Little-endian bytes of a `u32`.
pub open spec fn u32_le(x: u32) -> Seq<u8> {
    seq![(x & 0xff) as u8, ((x >> 8) & 0xff) as u8, ((x >> 16) & 0xff) as u8, ((x >> 24) & 0xff) as u8]
}

pub open spec fn digest_bytes(d: BlockDigest) -> Seq<u8> {
    u64_le(d.d0) + u64_le(d.d1) + u64_le(d.d2) + u64_le(d.d3)
}

pub open spec fn ref_bytes(r: BlockRef) -> Seq<u8> {
    u32_le(r.round) + u32_le(r.author) + digest_bytes(r.digest)
}

pub open spec fn refs_bytes(s: Seq<BlockRef>) -> Seq<u8>
    decreases s.len(),
{
    if s.len() == 0 {
        Seq::empty()
    } else {
        refs_bytes(s.drop_last()) + ref_bytes(s.last())
    }
}

pub open spec fn tx_bytes(t: Seq<u8>) -> Seq<u8> {
    u32_le(t.len() as u32) + t
}

pub open spec fn txs_bytes(s: Seq<Seq<u8>>) -> Seq<u8>
    decreases s.len(),
{
    if s.len() == 0 {
        Seq::empty()
    } else {
        txs_bytes(s.drop_last()) + tx_bytes(s.last())
    }
}

/// The deterministic serialization of a block: a versioned envelope of
/// little-endian fields with length-prefixed lists.
pub open spec fn block_bytes(b: Block) -> Seq<u8> {
    seq![1u8] + u64_le(b.epoch) + u32_le(b.round) + u32_le(b.author) + u64_le(b.timestamp_ms)
        + u32_le(b.ancestors@.len() as u32) + refs_bytes(b.ancestors@) + u32_le(
        b.transactions@.len() as u32,
    ) + txs_bytes(b.spec_tx_views())
}

/// A signed block: the block bytes followed by the length-prefixed signature.
pub open spec fn signed_bytes(b: Block, sig: Seq<u8>) -> Seq<u8> {
    block_bytes(b) + u32_le(sig.len() as u32) + sig
}

/// A `u64` read from eight little-endian bytes.
pub open spec fn u64_from_bytes(s: Seq<u8>, off: int) -> u64 {
    ((s[off] as u64) | ((s[off + 1] as u64) << 8) | ((s[off + 2] as u64) << 16) | ((s[off + 3]
        as u64) << 24) | ((s[off + 4] as u64) << 32) | ((s[off + 5] as u64) << 40) | ((s[off + 6]
        as u64) << 48) | ((s[off + 7] as u64) << 56)) as u64
}

pub open spec fn pack_digest(s: Seq<u8>) -> BlockDigest {
    BlockDigest {
        d0: u64_from_bytes(s, 0),
        d1: u64_from_bytes(s, 8),
        d2: u64_from_bytes(s, 16),
        d3: u64_from_bytes(s, 24),
    }
}

/// The digest of a signed block: hash of the domain-separated envelope.
pub open spec fn digest_of_signed(b: Block, sig: Seq<u8>) -> BlockDigest {
    pack_digest(blake2b_of(seq![DIGEST_DOMAIN] + signed_bytes(b, sig)))
}

pub open spec fn ref_of_signed(b: Block, sig: Seq<u8>) -> BlockRef {
    BlockRef { round: b.round, author: b.author, digest: digest_of_signed(b, sig) }
}

fn push_u64_le(out: &mut Vec<u8>, x: u64)
    ensures
        final(out)@ =~= old(out)@ + u64_le(x),
{
    out.push((x & 0xff) as u8);
    out.push(((x >> 8) & 0xff) as u8);
    out.push(((x >> 16) & 0xff) as u8);
    out.push(((x >> 24) & 0xff) as u8);
    out.push(((x >> 32) & 0xff) as u8);
    out.push(((x >> 40) & 0xff) as u8);
    out.push(((x >> 48) & 0xff) as u8);
    out.push(((x >> 56) & 0xff) as u8);
}

fn push_u32_le(out: &mut Vec<u8>, x: u32)
    ensures
        final(out)@ =~= old(out)@ + u32_le(x),
{
    out.push((x & 0xff) as u8);
    out.push(((x >> 8) & 0xff) as u8);
    out.push(((x >> 16) & 0xff) as u8);
    out.push(((x >> 24) & 0xff) as u8);
}

fn push_ref(out: &mut Vec<u8>, r: &BlockRef)
    ensures
        final(out)@ =~= old(out)@ + ref_bytes(*r),
{
    push_u32_le(out, r.round);
    push_u32_le(out, r.author);
    push_u64_le(out, r.digest.d0);
    push_u64_le(out, r.digest.d1);
    push_u64_le(out, r.digest.d2);
    push_u64_le(out, r.digest.d3);
}

/// Serialize a block into its deterministic envelope.
pub fn serialize_block(b: &Block) -> (r: Vec<u8>)
    requires
        b.wf(),
    ensures
        r@ == block_bytes(*b),
{
    let mut out: Vec<u8> = Vec::new();
    out.push(1u8);
    push_u64_le(&mut out, b.epoch);
    push_u32_le(&mut out, b.round);
    push_u32_le(&mut out, b.author);
    push_u64_le(&mut out, b.timestamp_ms);
    push_u32_le(&mut out, b.ancestors.len() as u32);
    let prefix: Ghost<Seq<u8>> = Ghost(out@);
    let mut i: usize = 0;
    while i < b.ancestors.len()
        invariant
            0 <= i <= b.ancestors@.len(),
            out@ =~= prefix@ + refs_bytes(b.ancestors@.take(i as int)),
        decreases b.ancestors@.len() - i,
    {
        proof {
            assert(b.ancestors@.take(i + 1).drop_last() =~= b.ancestors@.take(i as int));
        }
        push_ref(&mut out, &b.ancestors[i]);
        i = i + 1;
    }
    proof {
        assert(b.ancestors@.take(b.ancestors@.len() as int) =~= b.ancestors@);
    }
    push_u32_le(&mut out, b.transactions.len() as u32);
    let prefix2: Ghost<Seq<u8>> = Ghost(out@);
    let mut j: usize = 0;
    while j < b.transactions.len()
        invariant
            0 <= j <= b.transactions@.len(),
            b.wf(),
            out@ =~= prefix2@ + txs_bytes(b.spec_tx_views().take(j as int)),
        decreases b.transactions@.len() - j,
    {
        proof {
            assert(b.spec_tx_views().take(j + 1).drop_last() =~= b.spec_tx_views().take(j as int));
        }
        let t = &b.transactions[j];
        push_u32_le(&mut out, t.data.len() as u32);
        let mut k: usize = 0;
        let tlen = t.data.len();
        let prefix3: Ghost<Seq<u8>> = Ghost(out@);
        while k < tlen
            invariant
                0 <= k <= t@.len(),
                tlen == t@.len(),
                out@ =~= prefix3@ + t@.take(k as int),
            decreases tlen - k,
        {
            proof {
                assert(t@.take(k + 1).drop_last() =~= t@.take(k as int));
                assert(t@.take(k + 1).last() == t@[k as int]);
            }
            out.push(t.data[k]);
            k = k + 1;
        }
        proof {
            assert(t@.take(t@.len() as int) =~= t@);
            assert(b.spec_tx_views().take(j + 1).last() == t@);
        }
        j = j + 1;
    }
    proof {
        assert(b.spec_tx_views().take(b.transactions@.len() as int) =~= b.spec_tx_views());
    }
    out
}

fn append_bytes(out: &mut Vec<u8>, bytes: &Vec<u8>)
    ensures
        final(out)@ =~= old(out)@ + bytes@,
{
    let mut k: usize = 0;
    let prefix: Ghost<Seq<u8>> = Ghost(out@);
    while k < bytes.len()
        invariant
            0 <= k <= bytes@.len(),
            out@ =~= prefix@ + bytes@.take(k as int),
        decreases bytes@.len() - k,
    {
        proof {
            assert(bytes@.take(k + 1).drop_last() =~= bytes@.take(k as int));
            assert(bytes@.take(k + 1).last() == bytes@[k as int]);
        }
        out.push(bytes[k]);
        k = k + 1;
    }
    proof {
        assert(bytes@.take(bytes@.len() as int) =~= bytes@);
    }
}

/// The owned contents of a verified block: the block record, its signature,
/// the cached serialization and the digest.
pub struct BlockInner {
    pub block: Block,
    pub signature: Vec<u8>,
    pub serialized: Vec<u8>,
    pub digest: BlockDigest,
}

/// Relies on std's Arc::clone: the returned handle points to the same
/// allocation, so it carries the same value.
#[verifier::external_body]
fn share_inner(b: &std::sync::Arc<BlockInner>) -> (r: std::sync::Arc<BlockInner>)
    ensures
        r == *b,
{
    b.clone()
}

/// A block together with its signature, cached serialization and digest,
/// shared by handle so that clones are cheap.
///
/// The accept path treats incoming blocks as already verified; the core signs
/// its own proposals.
pub struct VerifiedBlock {
    inner: std::sync::Arc<BlockInner>,
}

impl VerifiedBlock {
    pub closed spec fn spec_inner(&self) -> BlockInner {
        *self.inner
    }

    pub open spec fn spec_block(&self) -> Block {
        self.spec_inner().block
    }

    pub open spec fn spec_signature(&self) -> Seq<u8> {
        self.spec_inner().signature@
    }

    pub open spec fn spec_serialized(&self) -> Seq<u8> {
        self.spec_inner().serialized@
    }

    pub open spec fn spec_digest(&self) -> BlockDigest {
        self.spec_inner().digest
    }

    /// The cached serialization and digest match the block content.
    pub open spec fn wf(&self) -> bool {
        &&& self.spec_block().wf()
        &&& self.spec_signature().len() <= u32::MAX
        &&& self.spec_serialized() == signed_bytes(self.spec_block(), self.spec_signature())
        &&& self.spec_digest() == digest_of_signed(self.spec_block(), self.spec_signature())
    }

    pub open spec fn spec_reference(&self) -> BlockRef {
        BlockRef {
            round: self.spec_block().round,
            author: self.spec_block().author,
            digest: self.spec_digest(),
        }
    }

    fn new_inner(block: Block, signature: Vec<u8>) -> (r: VerifiedBlock)
        requires
            block.wf(),
            signature@.len() <= u32::MAX,
        ensures
            r.wf(),
            r.spec_block() == block,
            r.spec_signature() == signature@,
    {
        let mut serialized = serialize_block(&block);
        push_u32_le(&mut serialized, signature.len() as u32);
        append_bytes(&mut serialized, &signature);
        assert(serialized@ =~= signed_bytes(block, signature@));
        let mut domain_input: Vec<u8> = Vec::new();
        domain_input.push(DIGEST_DOMAIN);
        append_bytes(&mut domain_input, &serialized);
        assert(domain_input@ =~= seq![DIGEST_DOMAIN] + signed_bytes(block, signature@));
        let digest32 = blake2b_digest(domain_input.as_slice());
        let digest = BlockDigest {
            d0: u64_from_le_bytes(&digest32, 0),
            d1: u64_from_le_bytes(&digest32, 8),
            d2: u64_from_le_bytes(&digest32, 16),
            d3: u64_from_le_bytes(&digest32, 24),
        };
        VerifiedBlock {
            inner: std::sync::Arc::new(BlockInner { block, signature, serialized, digest }),
        }
    }

    /// Sign a block and wrap it with its serialization and digest.
    pub fn new_signed(block: Block, key: &fastcrypto::ed25519::Ed25519KeyPair) -> (r:
        VerifiedBlock)
        requires
            block.wf(),
        ensures
            r.wf(),
            r.spec_block() == block,
    {
        let block_ser = serialize_block(&block);
        let signature = ed25519_sign(key, block_ser.as_slice());
        Self::new_inner(block, signature)
    }

    /// Wrap an unsigned block, as test fixtures and the genesis set do.
    pub fn new_for_test(block: Block) -> (r: VerifiedBlock)
        requires
            block.wf(),
        ensures
            r.wf(),
            r.spec_block() == block,
            r.spec_signature() == Seq::<u8>::empty(),
    {
        Self::new_inner(block, Vec::new())
    }

    pub fn reference(&self) -> (r: BlockRef)
        ensures
            r == self.spec_reference(),
    {
        BlockRef {
            round: self.inner.block.round,
            author: self.inner.block.author,
            digest: self.inner.digest,
        }
    }

    pub fn round(&self) -> (r: u32)
        ensures
            r == self.spec_block().round,
    {
        self.inner.block.round
    }

    pub fn author(&self) -> (r: u32)
        ensures
            r == self.spec_block().author,
    {
        self.inner.block.author
    }

    pub fn epoch(&self) -> (r: u64)
        ensures
            r == self.spec_block().epoch,
    {
        self.inner.block.epoch
    }

    pub fn timestamp_ms(&self) -> (r: u64)
        ensures
            r == self.spec_block().timestamp_ms,
    {
        self.inner.block.timestamp_ms
    }

    pub fn ancestors(&self) -> (r: &Vec<BlockRef>)
        ensures
            r@ == self.spec_block().ancestors@,
    {
        &self.inner.block.ancestors
    }

    pub fn transactions(&self) -> (r: &Vec<Transaction>)
        ensures
            r@ == self.spec_block().transactions@,
    {
        &self.inner.block.transactions
    }

    pub fn serialized(&self) -> (r: &Vec<u8>)
        ensures
            r@ == self.spec_serialized(),
    {
        &self.inner.serialized
    }
}

impl Clone for VerifiedBlock {
    fn clone(&self) -> (r: Self)
        ensures
            r == *self,
    {
        VerifiedBlock { inner: share_inner(&self.inner) }
    }
}

fn u64_from_le_bytes(s: &Vec<u8>, off: usize) -> (r: u64)
    requires
        off + 8 <= s@.len(),
        s@.len() <= 32,
    ensures
        r == u64_from_bytes(s@, off as int),
{
    (s[off] as u64) | ((s[off + 1] as u64) << 8) | ((s[off + 2] as u64) << 16) | ((s[off + 3]
        as u64) << 24) | ((s[off + 4] as u64) << 32) | ((s[off + 5] as u64) << 40) | ((s[off + 6]
        as u64) << 48) | ((s[off + 7] as u64) << 56)
}

/// Builder for blocks in tests and for the genesis set.
pub struct TestBlock {
    pub epoch: u64,
    pub round: u32,
    pub author: u32,
    pub timestamp_ms: u64,
    pub ancestors: Vec<BlockRef>,
    pub transactions: Vec<Transaction>,
}

impl TestBlock {
    pub fn new(round: u32, author: u32) -> (r: TestBlock)
        requires
            round < u32::MAX,
        ensures
            r.build_spec().wf(),
            r.round == round,
            r.author == author,
            r.epoch == 0,
            r.timestamp_ms == 0,
            r.ancestors@.len() == 0,
            r.transactions@.len() == 0,
    {
        TestBlock {
            epoch: 0,
            round,
            author,
            timestamp_ms: 0,
            ancestors: Vec::new(),
            transactions: Vec::new(),
        }
    }

    pub open spec fn build_spec(&self) -> Block {
        Block {
            epoch: self.epoch,
            round: self.round,
            author: self.author,
            timestamp_ms: self.timestamp_ms,
            ancestors: self.ancestors,
            transactions: self.transactions,
        }
    }

    pub fn set_ancestors(self, ancestors: Vec<BlockRef>) -> (r: TestBlock)
        requires
            ancestors@.len() <= u32::MAX,
        ensures
            r == (TestBlock { ancestors, ..self }),
    {
        TestBlock { ancestors, ..self }
    }

    pub fn set_timestamp_ms(self, timestamp_ms: u64) -> (r: TestBlock)
        ensures
            r == (TestBlock { timestamp_ms, ..self }),
    {
        TestBlock { timestamp_ms, ..self }
    }

    pub fn set_transactions(self, transactions: Vec<Transaction>) -> (r: TestBlock)
        requires
            transactions@.len() <= u32::MAX,
            forall|i: int| 0 <= i < transactions@.len() ==> transactions@[i]@.len() <= u32::MAX,
        ensures
            r == (TestBlock { transactions, ..self }),
    {
        TestBlock { transactions, ..self }
    }

    pub fn build(self) -> (r: Block)
        requires
            self.build_spec().wf(),
        ensures
            r == self.build_spec(),
    {
        Block {
            epoch: self.epoch,
            round: self.round,
            author: self.author,
            timestamp_ms: self.timestamp_ms,
            ancestors: self.ancestors,
            transactions: self.transactions,
        }
    }
}

/// Whether `b` is the genesis block of `authority` for `epoch`: round 0, no
/// ancestors, no payload, unsigned.
pub open spec fn is_genesis_block(b: VerifiedBlock, epoch: u64, authority: int) -> bool {
    &&& b.wf()
    &&& b.spec_block().round == 0
    &&& b.spec_block().author == authority
    &&& b.spec_block().epoch == epoch
    &&& b.spec_block().timestamp_ms == 0
    &&& b.spec_block().ancestors@.len() == 0
    &&& b.spec_block().transactions@.len() == 0
    &&& b.spec_signature().len() == 0
}

/// The genesis set of a committee: one unsigned round-0 block per authority.
pub fn genesis_blocks(committee: &crate::committee::Committee) -> (r: Vec<VerifiedBlock>)
    requires
        committee.wf(),
    ensures
        r@.len() == committee.spec_size(),
        forall|i: int|
            0 <= i < r@.len() ==> is_genesis_block(r@[i], committee.spec_epoch(), i),
    {
    proof {
        committee.wf_facts();
    }
    let n = committee.size();
    let epoch = committee.epoch();
    let mut out: Vec<VerifiedBlock> = Vec::new();
    let mut a: usize = 0;
    while a < n
        invariant
            0 <= a <= n,
            committee.wf(),
            n <= u32::MAX,
            n == committee.spec_size(),
            epoch == committee.spec_epoch(),
            out@.len() == a,
            forall|i: int| 0 <= i < a ==> is_genesis_block(out@[i], epoch, i),
        decreases n - a,
    {
        let block = Block {
            epoch,
            round: 0,
            author: a as u32,
            timestamp_ms: 0,
            ancestors: Vec::new(),
            transactions: Vec::new(),
        };
        let vb = VerifiedBlock::new_for_test(block);
        out.push(vb);
        a = a + 1;
    }
    out
}

} // verus!
