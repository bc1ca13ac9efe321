//! Accounts of a sharded ledger whose state is a graph of hashed nodes: the lifecycle of
//! an account, the layout in which it is kept, the footprint of what it stores, and the
//! proof that it is part of a state.
pub mod accounts;
pub mod bits;
pub mod builder;
pub mod cell;
pub mod codec;
pub mod currency;
pub mod dict;
pub mod error;
pub mod footprint;
pub mod merkle;
pub mod messages;
pub mod shard;
pub mod slice;
pub mod storage;
pub mod text;
pub mod types;
