//! Scenario tests of the consensus core on a four-validator committee:
//! genesis proposal, proposing on quorum, leader timeout, recovery from a
//! pre-populated store, and ancestor compression of a bulk feed.

use consensus_core::block::{BlockRef, TestBlock, VerifiedBlock};
use consensus_core::block::genesis_blocks;
use consensus_core::block_manager::BlockManager;
use consensus_core::commit_observer::CommitObserver;
use consensus_core::committee::{Committee, Context};
use consensus_core::consensus::{Core, CoreSignals, CoreSignalsReceivers};
use consensus_core::dag_state::DagState;
use consensus_core::storage::{MemStore, WriteBatch};
use consensus_core::transaction::TransactionConsumer;
use fastcrypto::traits::KeyPair;
use rand::rngs::StdRng;
use rand::SeedableRng;

const NOW: u64 = 1_000_000;

fn committee4() -> Committee {
    Committee::new(0, vec![1, 1, 1, 1])
}

fn signer(seed: u8) -> fastcrypto::ed25519::Ed25519KeyPair {
    fastcrypto::ed25519::Ed25519KeyPair::generate(&mut StdRng::from_seed([seed; 32]))
}

fn make_core(own_index: u32, store: MemStore) -> (Core, CoreSignalsReceivers) {
    make_core_with_consumer(own_index, store, TransactionConsumer::new(2_000))
}

fn make_core_with_consumer(
    own_index: u32,
    store: MemStore,
    consumer: TransactionConsumer,
) -> (Core, CoreSignalsReceivers) {
    let committee = committee4();
    let dag_state = DagState::new(&committee, store);
    let context = Context::new(committee, own_index);
    let block_manager = BlockManager::new();
    let commit_observer = CommitObserver::new();
    let (signals, receivers) = CoreSignals::new(1);
    let core = Core::new(
        context,
        consumer,
        block_manager,
        commit_observer,
        signals,
        signer(own_index as u8),
        dag_state,
        1,
    );
    (core, receivers)
}

fn refs_of(blocks: &[VerifiedBlock]) -> Vec<BlockRef> {
    blocks.iter().map(|b| b.reference()).collect()
}

fn round_blocks(round: u32, ancestors: &[VerifiedBlock], authors: &[u32]) -> Vec<VerifiedBlock> {
    authors
        .iter()
        .map(|a| {
            VerifiedBlock::new_for_test(
                TestBlock::new(round, *a)
                    .set_ancestors(refs_of(ancestors))
                    .build(),
            )
        })
        .collect()
}

#[test]
fn test_core_propose_after_genesis() {
    let mut consumer = TransactionConsumer::new(2_000);
    let mut submitted: Vec<Vec<u8>> = Vec::new();
    let mut total = 0usize;
    let mut index = 0usize;
    while total < 1_000 {
        let payload = format!("Transaction {index}").into_bytes();
        total += payload.len();
        index += 1;
        consumer.submit(payload.clone());
        submitted.push(payload);
    }
    let (mut core, _receivers) = make_core_with_consumer(0, MemStore::new(), consumer);

    let block = core
        .try_new_block(false, NOW)
        .unwrap()
        .expect("A new block should have been created");
    assert_eq!(block.round(), 1);
    assert_eq!(block.author(), 0);
    assert_eq!(block.ancestors().len(), 4);

    // All submitted transactions fit the cap, in order.
    let mut included = 0u64;
    for (i, tx) in block.transactions().iter().enumerate() {
        included += tx.data().len() as u64;
        assert_eq!(tx.data(), &submitted[i]);
    }
    assert!(included <= 2_000);
    assert_eq!(block.transactions().len(), submitted.len());

    // Genesis blocks are the referenced ancestors.
    let all_genesis = genesis_blocks(&committee4());
    for ancestor in block.ancestors().iter() {
        assert!(all_genesis.iter().any(|g| g.reference() == *ancestor),
            "Block should be found amongst genesis blocks");
    }

    // No second proposal for the same round, with or without leader check.
    assert!(core.try_new_block(false, NOW).unwrap().is_none());
    assert!(core.try_new_block(true, NOW).unwrap().is_none());

    // Nothing was committed.
    assert!(core.dag_state().store().read_last_commit().unwrap().is_none());
    assert_eq!(core.dag_state().last_commit_index(), 0);
}

#[test]
fn test_core_propose_once_receiving_a_quorum() {
    let (mut core, _receivers) = make_core(0, MemStore::new());
    let mut expected_ancestors: Vec<BlockRef> = Vec::new();

    // One round-1 block triggers this validator's own round-1 proposal.
    let block_1 = VerifiedBlock::new_for_test(TestBlock::new(1, 1).build());
    expected_ancestors.push(block_1.reference());
    core.add_blocks(vec![block_1], NOW).unwrap();
    assert_eq!(core.last_proposed_round(), 1);
    expected_ancestors.push(core.last_proposed_block().reference());

    // No quorum of round 1 yet: no proposal for round 2.
    assert!(core.try_new_block(false, NOW).unwrap().is_none());

    // A second round-1 block completes the quorum: round 2 is proposed.
    let block_2 = VerifiedBlock::new_for_test(TestBlock::new(1, 2).build());
    expected_ancestors.push(block_2.reference());
    core.add_blocks(vec![block_2], NOW).unwrap();
    assert_eq!(core.last_proposed_round(), 2);

    let proposed = core.last_proposed_block();
    assert_eq!(proposed.round(), 2);
    assert_eq!(proposed.author(), 0);
    assert_eq!(proposed.ancestors().len(), 3);
    // Self-parent first, then the two received round-1 blocks.
    assert_eq!(proposed.ancestors()[0], expected_ancestors[1]);
    for r in expected_ancestors.iter() {
        assert!(proposed.ancestors().contains(r));
    }

    assert!(core.dag_state().store().read_last_commit().unwrap().is_none());
}

#[test]
fn test_core_try_new_block_leader_timeout() {
    // Authorities 0, 1, 2 run; the round-3 leader (authority 3) is absent.
    let mut cores: Vec<Core> = (0..3)
        .map(|i| make_core(i, MemStore::new()).0)
        .collect();

    let mut last_round_blocks: Vec<VerifiedBlock> = Vec::new();
    for round in 1..=3u32 {
        let mut this_round_blocks = Vec::new();
        for core in cores.iter_mut() {
            core.add_blocks(last_round_blocks.clone(), NOW).unwrap();
            if core.last_proposed_round() < round {
                core.force_new_block(round, NOW).unwrap();
            }
            assert_eq!(core.last_proposed_round(), round);
            this_round_blocks.push(core.last_proposed_block().clone());
        }
        last_round_blocks = this_round_blocks;
    }

    // The round-3 leader is missing, so no one proposes round 4 on its own.
    for core in cores.iter_mut() {
        core.add_blocks(last_round_blocks.clone(), NOW).unwrap();
        assert!(core.try_new_block(false, NOW).unwrap().is_none());
    }

    // The leader timeout forces the proposal.
    for core in cores.iter_mut() {
        assert!(core.force_new_block(4, NOW).unwrap().is_some());
        assert_eq!(core.last_proposed_round(), 4);

        let last_commit = core
            .dag_state()
            .store()
            .read_last_commit()
            .unwrap()
            .expect("last commit should be set");
        assert_eq!(last_commit.index(), 1);
        assert_eq!(core.dag_state().store().scan_commits(0).unwrap().len(), 1);
    }
}

#[test]
fn test_core_recover_from_store_for_full_round() {
    // Rounds 1..=4 from all four authorities are already durable.
    let committee = committee4();
    let genesis = genesis_blocks(&committee);
    let mut all_blocks: Vec<VerifiedBlock> = genesis.clone();
    let mut last_round_blocks = genesis;
    for round in 1..=4u32 {
        let this_round = round_blocks(round, &last_round_blocks, &[0, 1, 2, 3]);
        all_blocks.extend(this_round.clone());
        last_round_blocks = this_round;
    }
    let mut store = MemStore::new();
    store.write(WriteBatch::new(all_blocks, vec![], vec![])).expect("Storage error");

    let (mut core, receivers) = make_core(0, store);

    // The clock recovered to round 5 and the signal already carries it.
    assert_eq!(*receivers.new_round_receiver().borrow(), 5);

    let proposed = core
        .try_new_block(true, NOW)
        .unwrap()
        .expect("A block should have been created");
    assert_eq!(proposed.round(), 5);
    assert_eq!(proposed.ancestors().len(), 4);
    for ancestor in proposed.ancestors().iter() {
        assert_eq!(ancestor.round, 4);
    }

    core.try_commit().unwrap();
    let last_commit = core
        .dag_state()
        .store()
        .read_last_commit()
        .unwrap()
        .expect("last commit should be set");
    assert_eq!(last_commit.index(), 2);
    assert_eq!(core.dag_state().last_commit_index(), 2);
    assert_eq!(core.dag_state().store().scan_commits(0).unwrap().len(), 2);
}

#[test]
fn test_core_recover_from_store_for_partial_round() {
    // Rounds 1..=3 from authorities 1, 2, 3 and round 4 from 2, 3 only;
    // this validator (authority 0) is absent throughout.
    let committee = committee4();
    let genesis = genesis_blocks(&committee);
    let mut all_blocks: Vec<VerifiedBlock> = genesis.clone();
    let mut last_round_blocks = genesis;
    for round in 1..=4u32 {
        let authors: &[u32] = if round == 4 { &[2, 3] } else { &[1, 2, 3] };
        let this_round = round_blocks(round, &last_round_blocks, authors);
        all_blocks.extend(this_round.clone());
        last_round_blocks = this_round;
    }
    let mut store = MemStore::new();
    store.write(WriteBatch::new(all_blocks, vec![], vec![])).expect("Storage error");

    let (mut core, receivers) = make_core(0, store);

    // The last full quorum is round 3, so the clock recovered to round 4.
    assert_eq!(*receivers.new_round_receiver().borrow(), 4);

    let proposed = core
        .try_new_block(true, NOW)
        .unwrap()
        .expect("A block should have been created");
    assert_eq!(proposed.round(), 4);
    assert_eq!(proposed.ancestors().len(), 4);
    for ancestor in proposed.ancestors().iter() {
        if ancestor.author == 0 {
            assert_eq!(ancestor.round, 0);
        } else {
            assert_eq!(ancestor.round, 3);
        }
    }

    core.try_commit().unwrap();
    let last_commit = core
        .dag_state()
        .store()
        .read_last_commit()
        .unwrap()
        .expect("last commit should be set");
    assert_eq!(last_commit.index(), 2);
    assert_eq!(core.dag_state().store().scan_commits(0).unwrap().len(), 2);
}

#[test]
fn test_core_compress_proposal_references() {
    // Authorities 0, 1, 2 build rounds 1..=10; authority 3 then ingests the
    // whole history at once and must reference only the top round.
    let mut cores: Vec<Core> = (0..4)
        .map(|i| make_core(i, MemStore::new()).0)
        .collect();

    let mut last_round_blocks: Vec<VerifiedBlock> = Vec::new();
    let mut all_blocks: Vec<VerifiedBlock> = Vec::new();
    for round in 1..=10u32 {
        let mut this_round_blocks = Vec::new();
        for core in cores.iter_mut().take(3) {
            core.add_blocks(last_round_blocks.clone(), NOW).unwrap();
            core.force_new_block(round, NOW).unwrap();
            assert_eq!(core.last_proposed_round(), round);
            this_round_blocks.push(core.last_proposed_block().clone());
        }
        last_round_blocks = this_round_blocks.clone();
        all_blocks.extend(this_round_blocks);
    }

    let late = &mut cores[3];
    late.add_blocks(all_blocks, NOW).unwrap();

    // Compression: the round-11 proposal references its own genesis block
    // and one round-10 block per peer, nothing older.
    let block = late.last_proposed_block();
    assert_eq!(block.round(), 11);
    assert_eq!(block.ancestors().len(), 4);
    for block_ref in block.ancestors().iter() {
        if block_ref.author == 3 {
            assert_eq!(block_ref.round, 0);
        } else {
            assert_eq!(block_ref.round, 10);
        }
    }

    let last_commit = late
        .dag_state()
        .store()
        .read_last_commit()
        .unwrap()
        .expect("last commit should be set");
    assert_eq!(last_commit.index(), 6);
    assert_eq!(late.dag_state().store().scan_commits(0).unwrap().len(), 6);
}
