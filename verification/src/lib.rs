//! Toycoin: a toy append-only ledger.
//!
//! Coins are mined by guessing a one-byte proof value and can be wired between
//! named accounts.  The ledger keeps an append-only chain of blocks: a
//! committed prefix and exactly one open block that collects pending
//! transactions.  Committing validates that no account ends up with a negative
//! balance, seals the open block behind a digest, and opens a fresh one.
pub mod block;
pub mod encoding;
pub mod model;
pub mod order;
pub mod requests;
