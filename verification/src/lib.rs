//! Epoch-change tracking for a slot-based consensus engine.
//!
//! The core of the crate is a fork-aware forest ([`fork_tree::ForkTree`])
//! together with a domain wrapper ([`epoch_changes::EpochChanges`]) that
//! records at which blocks new epochs were signalled and answers, for any
//! block on any fork, which epoch governs a child of that block at a given
//! slot.  A thin wrapper ([`epoch_changes::SharedEpochChanges`]) serializes
//! concurrent access to one instance.
//!
//! Around the core stand the command-line facing pieces: the `run` command
//! options and their interpretation, and the `verify` command's input
//! handling.

pub mod epoch_changes;
pub mod run_cmd;
pub mod verify_cmd;
pub mod fork_tree;
