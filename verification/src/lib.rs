//! Constant-ratio liquidity pool accounting.
//!
//! Accounts deposit pairs of two fungible assets into a shared pool and
//! receive shares proportional to their deposit; shares can later be
//! redeemed for a proportional part of the pool's current reserves.
//! All rounding favours the pool, so no participant can extract more
//! value than they contributed.

use vstd::prelude::*;

pub mod pair;
pub mod table;
pub mod pool;
pub mod engine;
pub mod laws;

verus! {

/// Identifier of a fungible asset; totally ordered so a pair of assets
/// has one canonical orientation.
pub type AssetId = u32;

/// Identifier of an account.
pub type AccountId = u64;

/// An amount of an asset, of shares, or of a ledger balance.
pub type Balance = u128;

/// A signed balance change handed to the ledger: credit when positive,
/// debit when negative.
pub type Amount = i128;

/// Why an operation was refused. Every failure leaves all state unchanged.
#[derive(Clone, Copy, Debug, PartialEq, Eq, Structural)]
pub enum DexError {
    /// The two asset identifiers of a pair are equal.
    InvalidPair,
    /// The pair is not in the set of enabled trading pairs.
    InvalidTradingPairNotAllowed,
    /// A zero or degenerate amount: a zero bound, a deposit or redemption
    /// that rounds to nothing, or an intermediate product that overflows.
    InvalidLiquidityIncrement,
    /// A withdrawal of more shares than the caller holds.
    InsufficientShares,
    /// The ledger refused a balance change.
    LedgerError,
}

/// One whole unit of an asset in its smallest denomination,
/// at eighteen decimal places.
pub fn dollar(d: u32) -> (r: Balance)
    ensures
        r == d * 1_000_000_000_000_000_000u128,
{
    let d: Balance = d as Balance;
    d * 1_000_000_000_000_000_000
}

} // verus!
