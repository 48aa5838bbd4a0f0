//! A single-node blockchain: blocks admitted by proof of work, branches that
//! each keep a ledger of their own, and a shard that routes every new block to
//! the branches it fits, follows the longest of them and drops those that
//! fall behind.
//!
//! Every function states what it returns and changes over a model of its
//! data: a block is a record of byte strings and numbers, a ledger a sequence
//! of wallets, a branch a sequence of blocks with the ledger they give, a
//! shard a sequence of branches. The modules `ledger` and `branches` hold the
//! models and the laws proved of them; `bank`, `chain` and `shard` hold the
//! data structures that keep to them.

pub mod bank;
pub mod block;
pub mod block_data;
pub mod branches;
pub mod chain;
pub mod chain_iter;
pub mod hash;
pub mod hexcode;
pub mod ledger;
pub mod miner;
pub mod shard;
pub mod signature;
