//! End-to-end exercises of the consensus components on a four-validator
//! committee.

use consensus_core::block::{BlockDigest, BlockRef, Slot, TestBlock, Transaction, VerifiedBlock};
use consensus_core::block::genesis_blocks;
use consensus_core::block_manager::BlockManager;
use consensus_core::commit_observer::CommitObserver;
use consensus_core::committee::Committee;
use consensus_core::committer::{DecidedLeader, UniversalCommitter};
use consensus_core::dag_state::DagState;
use consensus_core::rpc_types::GetFullCheckpointOptions;
use consensus_core::storage::{MemStore, TrustedCommit, WriteBatch};
use consensus_core::threshold_clock::ThresholdClock;
use consensus_core::transaction::TransactionConsumer;

fn committee4() -> Committee {
    Committee::new(0, vec![1, 1, 1, 1])
}

fn dummy_ref(round: u32, author: u32, tag: u64) -> BlockRef {
    BlockRef {
        round,
        author,
        digest: BlockDigest { d0: tag, d1: 0, d2: 0, d3: 0 },
    }
}

fn refs_of(blocks: &[VerifiedBlock]) -> Vec<BlockRef> {
    blocks.iter().map(|b| b.reference()).collect()
}

fn round_blocks(round: u32, ancestors: &[VerifiedBlock], authors: &[u32]) -> Vec<VerifiedBlock> {
    authors
        .iter()
        .map(|a| {
            VerifiedBlock::new_for_test(
                TestBlock::new(round, *a).set_ancestors(refs_of(ancestors)).build(),
            )
        })
        .collect()
}

#[test]
fn test_committee_thresholds() {
    let committee = committee4();
    assert_eq!(committee.size(), 4);
    assert_eq!(committee.total_stake(), 4);
    assert_eq!(committee.quorum_threshold(), 3);
    assert_eq!(committee.validity_threshold(), 2);
    assert_eq!(committee.stake(2), 1);
}

#[test]
fn test_threshold_clock_advances_on_quorum() {
    let committee = committee4();
    let mut clock = ThresholdClock::new(0, &committee);
    assert_eq!(clock.get_round(), 0);
    let first = clock.add_blocks(&vec![dummy_ref(0, 0, 1), dummy_ref(0, 1, 2)], &committee);
    assert_eq!(first, None);
    assert_eq!(clock.get_round(), 0);
    let second = clock.add_blocks(&vec![dummy_ref(0, 2, 3)], &committee);
    assert_eq!(second, Some(1));
    assert_eq!(clock.get_round(), 1);
    // A reference from a higher round jumps the clock, and the new round is
    // reported.
    let third = clock.add_blocks(&vec![dummy_ref(5, 0, 4)], &committee);
    assert_eq!(third, Some(5));
    assert_eq!(clock.get_round(), 5);
}

#[test]
fn test_genesis_blocks_shape() {
    let committee = committee4();
    let genesis = genesis_blocks(&committee);
    assert_eq!(genesis.len(), 4);
    for (i, b) in genesis.iter().enumerate() {
        assert_eq!(b.round(), 0);
        assert_eq!(b.author() as usize, i);
        assert!(b.ancestors().is_empty());
    }
    // The references are distinct.
    for i in 0..4 {
        for j in (i + 1)..4 {
            assert_ne!(genesis[i].reference(), genesis[j].reference());
        }
    }
}

#[test]
fn test_mem_store_commits() {
    let mut store = MemStore::new();
    let c1 = TrustedCommit::new(1, dummy_ref(1, 1, 7), vec![dummy_ref(1, 1, 7)]);
    let c2 = TrustedCommit::new(2, dummy_ref(2, 2, 8), vec![dummy_ref(2, 2, 8)]);
    store.write(WriteBatch::new(vec![], vec![c1], vec![])).unwrap();
    store.write(WriteBatch::new(vec![], vec![c2], vec![0, 1, 2, 0])).unwrap();
    let last = store.read_last_commit().unwrap().expect("last commit should be set");
    assert_eq!(last.index(), 2);
    assert_eq!(store.scan_commits(0).unwrap().len(), 2);
    assert_eq!(store.scan_commits(2).unwrap().len(), 1);
    let info = store.read_last_commit_info().unwrap().expect("commit info should be set");
    assert_eq!(info, vec![0, 1, 2, 0]);
}

#[test]
fn test_transaction_consumer_respects_cap() {
    let mut consumer = TransactionConsumer::new(10);
    consumer.submit(vec![1, 2, 3, 4]);
    consumer.submit(vec![5, 6, 7, 8]);
    consumer.submit(vec![9, 10, 11, 12]);
    let batch: Vec<Transaction> = consumer.next();
    assert_eq!(batch.len(), 2);
    assert_eq!(batch[0].data(), &vec![1, 2, 3, 4]);
    assert_eq!(batch[1].data(), &vec![5, 6, 7, 8]);
    let rest = consumer.next();
    assert_eq!(rest.len(), 1);
    assert_eq!(rest[0].data(), &vec![9, 10, 11, 12]);
    assert!(consumer.next().is_empty());
}

#[test]
fn test_checkpoint_options_defaults_and_all() {
    let defaults = GetFullCheckpointOptions::default();
    assert!(!defaults.include_summary());
    assert!(!defaults.include_object_bcs());
    assert!(!defaults.include_any_transaction_info());
    let all = GetFullCheckpointOptions::all();
    assert!(all.include_summary());
    assert!(all.include_summary_bcs());
    assert!(all.include_signature());
    assert!(all.include_contents());
    assert!(all.include_contents_bcs());
    assert!(all.include_transaction());
    assert!(all.include_transaction_bcs());
    assert!(all.include_effects());
    assert!(all.include_effects_bcs());
    assert!(all.include_events());
    assert!(all.include_events_bcs());
    assert!(all.include_input_objects());
    assert!(all.include_output_objects());
    assert!(all.include_object());
    assert!(all.include_object_bcs());
    assert!(all.include_any_transaction_info());
    let mut partial = GetFullCheckpointOptions::default();
    partial.events = Some(true);
    assert!(partial.include_any_transaction_info());
}

#[test]
fn test_block_manager_suspends_until_history_arrives() {
    let committee = committee4();
    let mut dag = DagState::new(&committee, MemStore::new());
    let mut bm = BlockManager::new();
    let genesis = genesis_blocks(&committee);
    let round1 = round_blocks(1, &genesis, &[0, 1, 2, 3]);
    let round2 = round_blocks(2, &round1, &[0, 1, 2, 3]);

    // Round-2 blocks arrive first: all suspended, their parents missing.
    let (accepted, missing) =
        bm.try_accept_blocks(round2.clone(), &mut dag, &committee).unwrap();
    assert!(accepted.is_empty());
    assert_eq!(missing.len(), 4);
    assert!(!bm.missing_blocks().is_empty());

    // Their history arrives: everything is accepted.
    let (accepted, missing) =
        bm.try_accept_blocks(round1.clone(), &mut dag, &committee).unwrap();
    assert_eq!(accepted.len(), 8);
    assert!(missing.is_empty());
    for b in round2.iter() {
        assert!(dag.contains_block_at_slot(Slot::new(2, b.author())));
    }
}

#[test]
fn test_direct_commit_of_first_two_leaders() {
    let committee = committee4();
    let mut dag = DagState::new(&committee, MemStore::new());
    let mut bm = BlockManager::new();
    let genesis = genesis_blocks(&committee);
    let mut last = genesis.clone();
    for round in 1..=4u32 {
        let this_round = round_blocks(round, &last, &[0, 1, 2, 3]);
        let (accepted, missing) =
            bm.try_accept_blocks(this_round.clone(), &mut dag, &committee).unwrap();
        assert_eq!(accepted.len(), 4);
        assert!(missing.is_empty());
        last = this_round;
    }

    let committer = UniversalCommitter::new(1);
    let verdicts = committer.try_commit(Slot::new(0, 0), &dag, &committee);
    // Rounds complete up to 4, so the leaders of rounds 1 and 2 are decided.
    assert_eq!(verdicts.len(), 2);
    let slots: Vec<Slot> = verdicts.iter().map(|v| v.get_decided_slot()).collect();
    assert_eq!(slots[0], Slot::new(1, 1));
    assert_eq!(slots[1], Slot::new(2, 2));

    let committed: Vec<_> =
        verdicts.into_iter().filter_map(|v| v.into_committed_block()).collect();
    assert_eq!(committed.len(), 2);

    let mut observer = CommitObserver::new();
    let subdags = observer.handle_commit(committed, &mut dag, &committee).unwrap();
    assert_eq!(subdags.len(), 2);
    assert_eq!(subdags[0].commit_index, 1);
    assert_eq!(subdags[1].commit_index, 2);
    assert_eq!(dag.last_commit_index(), 2);
    let stored = dag.store().scan_commits(0).unwrap();
    assert_eq!(stored.len(), 2);
    let last_commit = dag.store().read_last_commit().unwrap().expect("last commit should be set");
    assert_eq!(last_commit.index(), 2);
}

#[test]
fn test_skipped_leader_still_advances_decisions() {
    // Authority 3 never produces blocks; its leader rounds are skipped by a
    // quorum of blame while the other leaders commit.
    let committee = committee4();
    let mut dag = DagState::new(&committee, MemStore::new());
    let mut bm = BlockManager::new();
    let genesis = genesis_blocks(&committee);
    let mut last = genesis.clone();
    for round in 1..=6u32 {
        let this_round = round_blocks(round, &last, &[0, 1, 2]);
        let (accepted, missing) =
            bm.try_accept_blocks(this_round.clone(), &mut dag, &committee).unwrap();
        assert_eq!(accepted.len(), 3);
        assert!(missing.is_empty());
        last = this_round;
    }
    let committer = UniversalCommitter::new(1);
    let verdicts = committer.try_commit(Slot::new(0, 0), &dag, &committee);
    // Leaders of rounds 1..=4 are decided; the round-1 leader of authority 3
    // does not exist in this DAG. Round 1 leader is authority 2 here.
    assert!(verdicts.len() >= 1);
    for v in verdicts.iter() {
        match v {
            DecidedLeader::Commit(b) => assert!(b.author() != 3),
            DecidedLeader::Skip(s) => assert_eq!(s.authority, 3),
        }
    }
}
