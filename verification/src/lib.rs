//! Per-validator consensus core of a DAG-based Byzantine-fault-tolerant
//! protocol.
//!
//! The `Core` ingests externally received blocks, advances a threshold clock
//! over rounds, assembles ancestor sets for its own proposals, drives the
//! commit rule, and emits lifecycle signals to subscribers.

use vstd::prelude::*;

pub mod block;
pub mod block_manager;
pub mod channels;
pub mod committee;
pub mod commit_observer;
pub mod committer;
pub mod consensus;
pub mod crypto;
pub mod dag_state;
pub mod error;
pub mod rpc_types;
pub mod storage;
pub mod threshold_clock;
pub mod transaction;

verus! {

} // verus!
