//! Plain request bodies for the two mutating ledger operations.
//!
//! The HTTP adapter decodes its JSON into these shapes before calling the
//! ledger.
use vstd::prelude::*;

verus! {

/// A request to wire `amount` Toycoins from `from` to `to`.
pub struct WireRequest {
    pub from: String,
    pub to: String,
    pub amount: i64,
}

/// A request to mine: `miner` guesses that the open block's proof is `guess`.
pub struct GuessRequest {
    pub miner: String,
    pub guess: u8,
}

} // verus!
