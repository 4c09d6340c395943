//! A multi-item auction engine: an operator creates auctions made of named
//! bid items, participants place bids per item, and a bounded incremental
//! settlement process (the crank) resolves winners and emits payout
//! transfers across repeated invocations.

pub mod bids;
pub mod contract;
pub mod crank;
pub mod error;
pub mod laws;
pub mod lifecycle;
pub mod msg;
pub mod queries;
pub mod state;
pub mod store;
