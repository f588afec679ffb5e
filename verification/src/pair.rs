//! Canonical identity of a trading pair.

use vstd::prelude::*;
use crate::{AssetId, DexError};

verus! {

/// The canonical ordered key of an unordered pair of distinct assets:
/// `(a, b)` and `(b, a)` always normalize to the same key, so a caller
/// cannot address two different pools with one pair.
#[derive(Clone, Copy, Debug, PartialEq, Eq, Structural)]
pub struct AssetPairKey {
    pub low: AssetId,
    pub high: AssetId,
}

impl AssetPairKey {
    /// A key is well formed when its two assets are distinct and ordered.
    pub open spec fn wf(self) -> bool {
        self.low < self.high
    }
}

/// The key that `normalize` produces for two distinct assets.
pub open spec fn spec_pair_key(a: AssetId, b: AssetId) -> AssetPairKey {
    if a < b {
        AssetPairKey { low: a, high: b }
    } else {
        AssetPairKey { low: b, high: a }
    }
}

/// Orders two asset identifiers into the canonical key; pairing an asset
/// with itself is refused.
pub fn normalize(a: AssetId, b: AssetId) -> (r: Result<AssetPairKey, DexError>)
    ensures
        a == b ==> r == Err::<AssetPairKey, DexError>(DexError::InvalidPair),
        a != b ==> r == Ok::<AssetPairKey, DexError>(spec_pair_key(a, b)),
        a != b ==> spec_pair_key(a, b).wf(),
{
    if a == b {
        Err(DexError::InvalidPair)
    } else if a < b {
        Ok(AssetPairKey { low: a, high: b })
    } else {
        Ok(AssetPairKey { low: b, high: a })
    }
}

} // verus!
