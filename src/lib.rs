//! A replicated account ledger driven by an ABCI-style consensus engine:
//! a canonical transaction codec, admission rules, block execution and an
//! authenticated commitment over the account map.

pub mod app;
pub mod chain;
pub mod codec;
pub mod common;
pub mod db;
pub mod executor;
pub mod ledger;
pub mod rocksdb;
pub mod transaction;
