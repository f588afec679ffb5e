//! The pool registry, the share ledger and the currency ledger, with the
//! two operations that mutate them: `add_liquidity` and
//! `withdraw_liquidity`. Every failure leaves the whole state unchanged;
//! every success changes exactly the entries its contract names.

use vstd::prelude::*;
use crate::{AccountId, Amount, AssetId, Balance, DexError};
use crate::pair::{normalize, spec_pair_key, AssetPairKey};
use crate::pool::{
    grow_amounts, grow_outcome, redeem_amounts, withdraw_outcome, PoolState,
    lemma_scale_all, lemma_scale_le, lemma_scale_lt,
};
use crate::table;

verus! {

/// One pool record: its canonical pair, its reserves and share total,
/// and the per-account ledger of its shares (keyed by account).
pub struct PoolEntry {
    pub key: AssetPairKey,
    pub state: PoolState,
    pub holders: Vec<(u128, u128)>,
}

impl PoolEntry {
    /// A record is well formed when its key and state are, its holder
    /// ledger has distinct accounts, and the holders' shares sum to the
    /// pool's total — the conservation invariant.
    pub open spec fn wf(self) -> bool {
        &&& self.key.wf()
        &&& self.state.wf()
        &&& table::distinct_keys(self.holders@)
        &&& table::sum_values(self.holders@) == self.state.total_shares
    }
}

/// The first record under `key`, if any.
pub open spec fn find_pool(s: Seq<PoolEntry>, key: AssetPairKey) -> Option<PoolEntry>
    decreases s.len(),
{
    if s.len() == 0 {
        None
    } else if s[0].key == key {
        Some(s[0])
    } else {
        find_pool(s.drop_first(), key)
    }
}

/// No pair has two records.
pub open spec fn distinct_pool_keys(s: Seq<PoolEntry>) -> bool {
    forall|i: int, j: int| 0 <= i < j < s.len() ==> #[trigger] s[i].key != #[trigger] s[j].key
}

proof fn lemma_distinct_drop(s: Seq<PoolEntry>)
    requires
        distinct_pool_keys(s),
        s.len() > 0,
    ensures
        distinct_pool_keys(s.drop_first()),
{
    assert forall|x: int, y: int| 0 <= x < y < s.drop_first().len() implies
        s.drop_first()[x].key != s.drop_first()[y].key by {
        assert(s[x + 1].key != s[y + 1].key);
    }
}

pub proof fn lemma_find_none(s: Seq<PoolEntry>, key: AssetPairKey)
    requires
        forall|i: int| 0 <= i < s.len() ==> #[trigger] s[i].key != key,
    ensures
        find_pool(s, key) is None,
    decreases s.len(),
{
    if s.len() > 0 {
        lemma_find_none(s.drop_first(), key);
    }
}

/// Replacing record `i` under its own key changes only that key's lookup.
pub proof fn lemma_find_update(s: Seq<PoolEntry>, i: int, e: PoolEntry, key: AssetPairKey)
    requires
        distinct_pool_keys(s),
        0 <= i < s.len(),
        e.key == s[i].key,
    ensures
        find_pool(s.update(i, e), key) == if key == e.key { Some(e) } else { find_pool(s, key) },
        distinct_pool_keys(s.update(i, e)),
    decreases s.len(),
{
    let s2 = s.update(i, e);
    assert forall|x: int, y: int| 0 <= x < y < s2.len() implies
        s2[x].key != s2[y].key by {
        assert(s[x].key != s[y].key);
    }
    if i == 0 {
        assert(s2.drop_first() =~= s.drop_first());
    } else {
        assert(s2[0] == s[0]);
        assert(s2.drop_first() =~= s.drop_first().update(i - 1, e));
        lemma_distinct_drop(s);
        lemma_find_update(s.drop_first(), i - 1, e, key);
        if key == s[0].key {
            assert(s[0].key != s[i].key);
        }
    }
}

/// Appending a record under a fresh key changes only that key's lookup.
pub proof fn lemma_find_push(s: Seq<PoolEntry>, e: PoolEntry, key: AssetPairKey)
    requires
        forall|i: int| 0 <= i < s.len() ==> #[trigger] s[i].key != e.key,
    ensures
        find_pool(s.push(e), key) == if key == e.key { Some(e) } else { find_pool(s, key) },
        distinct_pool_keys(s) ==> distinct_pool_keys(s.push(e)),
    decreases s.len(),
{
    let s2 = s.push(e);
    assert(s2[0] == if s.len() == 0 { e } else { s[0] });
    if s.len() == 0 {
        assert(s2.drop_first() =~= Seq::<PoolEntry>::empty());
        assert(find_pool(Seq::<PoolEntry>::empty(), key) is None);
    } else {
        assert(s2.drop_first() =~= s.drop_first().push(e));
        assert forall|i: int| 0 <= i < s.drop_first().len() implies
            #[trigger] s.drop_first()[i].key != e.key by {
            assert(s.drop_first()[i] == s[i + 1]);
        }
        lemma_find_push(s.drop_first(), e, key);
        if key == s[0].key {
            assert(s[0].key != e.key);
        }
    }
    if distinct_pool_keys(s) {
        assert forall|x: int, y: int| 0 <= x < y < s2.len() implies
            s2[x].key != s2[y].key by {
            if y < s.len() {
                assert(s[x].key != s[y].key);
            } else {
                assert(s[x].key != e.key);
            }
        }
    }
}

/// A record that `find_pool` returns stands somewhere in the sequence.
pub proof fn lemma_find_in(s: Seq<PoolEntry>, key: AssetPairKey)
    requires
        find_pool(s, key) is Some,
    ensures
        exists|i: int|
            0 <= i < s.len() && #[trigger] s[i] == find_pool(s, key).unwrap(),
    decreases s.len(),
{
    if s[0].key == key {
        assert(s[0] == find_pool(s, key).unwrap());
    } else {
        lemma_find_in(s.drop_first(), key);
        let j = choose|j: int|
            0 <= j < s.drop_first().len()
                && #[trigger] s.drop_first()[j] == find_pool(s.drop_first(), key).unwrap();
        assert(s[j + 1] == find_pool(s, key).unwrap());
    }
}

/// The ledger key of an account's balance of one asset.
pub open spec fn spec_bal_key(asset: AssetId, who: AccountId) -> u128 {
    ((asset as u128) * 0x1_0000_0000_0000_0000 + (who as u128)) as u128
}

/// Distinct (asset, account) pairs have distinct ledger keys.
pub proof fn lemma_bal_key_injective(a1: AssetId, w1: AccountId, a2: AssetId, w2: AccountId)
    requires
        spec_bal_key(a1, w1) == spec_bal_key(a2, w2),
    ensures
        a1 == a2 && w1 == w2,
{
}

fn bal_key(asset: AssetId, who: AccountId) -> (r: u128)
    ensures
        r == spec_bal_key(asset, who),
{
    (asset as u128) * 0x1_0000_0000_0000_0000 + (who as u128)
}

/// What crediting (`by_amount >= 0`) or debiting (`by_amount < 0`) does
/// to one balance: `None` when the debit exceeds the balance or the
/// credit would not fit.
pub open spec fn spec_apply(bal: Balance, by_amount: Amount) -> Option<int> {
    if bal + by_amount > u128::MAX || bal + by_amount < 0 {
        None
    } else {
        Some(bal + by_amount)
    }
}

/// A balance converted to a signed ledger change, saturating at the
/// largest representable credit.
pub open spec fn spec_saturating_amount(b: Balance) -> Amount {
    if b > i128::MAX { i128::MAX } else { b as i128 }
}

/// Converts a balance to the signed change that credits it, saturating.
pub fn saturating_amount(b: Balance) -> (r: Amount)
    ensures
        r == spec_saturating_amount(b),
{
    if b > i128::MAX as u128 {
        i128::MAX
    } else {
        b as i128
    }
}

/// The decision `add_liquidity` takes, over the observables it reads:
/// whether the pair is enabled, the raw inputs, the pool before the call
/// and the caller's two balances. `Ok((amount_low, amount_high, minted))`
/// names the deposit taken and the shares minted.
pub open spec fn add_decision(
    enabled: bool,
    asset_a: AssetId,
    asset_b: AssetId,
    max_a: Balance,
    max_b: Balance,
    p: PoolState,
    bal_low: Balance,
    bal_high: Balance,
) -> Result<(int, int, int), DexError> {
    if asset_a == asset_b {
        Err(DexError::InvalidPair)
    } else if !enabled {
        Err(DexError::InvalidTradingPairNotAllowed)
    } else if max_a == 0 || max_b == 0 {
        Err(DexError::InvalidLiquidityIncrement)
    } else {
        let ml: int = if asset_a < asset_b { max_a as int } else { max_b as int };
        let mh: int = if asset_a < asset_b { max_b as int } else { max_a as int };
        let o = if p.is_empty() {
            Some((ml, mh, ml))
        } else {
            grow_outcome(p.reserve_low as int, p.reserve_high as int, p.total_shares as int, ml, mh)
        };
        match o {
            None => Err(DexError::InvalidLiquidityIncrement),
            Some((al, ah, m)) => if bal_low < al || bal_high < ah {
                Err(DexError::LedgerError)
            } else {
                Ok((al, ah, m))
            },
        }
    }
}

/// The decision `withdraw_liquidity` takes, over the observables it
/// reads. `Ok((amount_low, amount_high))` names the amounts returned.
pub open spec fn withdraw_decision(
    asset_a: AssetId,
    asset_b: AssetId,
    share_amount: Balance,
    p: PoolState,
    holder: Balance,
    bal_low: Balance,
    bal_high: Balance,
) -> Result<(int, int), DexError> {
    if asset_a == asset_b {
        Err(DexError::InvalidPair)
    } else if share_amount == 0 {
        Err(DexError::InvalidLiquidityIncrement)
    } else if holder < share_amount {
        Err(DexError::InsufficientShares)
    } else {
        match withdraw_outcome(
            p.reserve_low as int,
            p.reserve_high as int,
            p.total_shares as int,
            share_amount as int,
        ) {
            None => Err(DexError::InvalidLiquidityIncrement),
            Some((al, ah)) => if bal_low + al > u128::MAX || bal_high + ah > u128::MAX {
                Err(DexError::LedgerError)
            } else {
                Ok((al, ah))
            },
        }
    }
}

/// The whole state: the enabled trading pairs (read-only here), the pool
/// records with their share ledgers, and the currency ledger.
pub struct Dex {
    pub enabled: Vec<AssetPairKey>,
    pub pools: Vec<PoolEntry>,
    pub balances: Vec<(u128, u128)>,
}

impl Dex {
    pub open spec fn wf(self) -> bool {
        &&& distinct_pool_keys(self.pools@)
        &&& forall|i: int| 0 <= i < self.pools@.len() ==> #[trigger] self.pools@[i].wf()
        &&& table::distinct_keys(self.balances@)
    }

    /// Whether the pair is in the registry of enabled trading pairs.
    pub open spec fn spec_enabled(self, key: AssetPairKey) -> bool {
        self.enabled@.contains(key)
    }

    /// The pool under `key`; an absent record reads as the empty pool.
    pub open spec fn spec_pool(self, key: AssetPairKey) -> PoolState {
        match find_pool(self.pools@, key) {
            Some(e) => e.state,
            None => PoolState::spec_zero(),
        }
    }

    /// `who`'s shares of the pool under `key`.
    pub open spec fn spec_shares(self, key: AssetPairKey, who: AccountId) -> Balance {
        match find_pool(self.pools@, key) {
            Some(e) => table::lookup(e.holders@, who as u128),
            None => 0,
        }
    }

    /// `who`'s ledger balance of `asset`.
    pub open spec fn spec_balance(self, asset: AssetId, who: AccountId) -> Balance {
        table::lookup(self.balances@, spec_bal_key(asset, who))
    }

    /// A fresh state: the given pairs enabled, no pools, no balances.
    pub fn new(enabled: Vec<AssetPairKey>) -> (r: Dex)
        ensures
            r.wf(),
            r.enabled@ == enabled@,
            forall|k: AssetPairKey| #[trigger] r.spec_pool(k) == PoolState::spec_zero(),
            forall|k: AssetPairKey, w: AccountId| #[trigger] r.spec_shares(k, w) == 0,
            forall|a: AssetId, w: AccountId| #[trigger] r.spec_balance(a, w) == 0,
    {
        let r = Dex { enabled, pools: Vec::new(), balances: Vec::new() };
        proof {
            assert(r.pools@ =~= Seq::<PoolEntry>::empty());
            assert(r.balances@ =~= Seq::<(u128, u128)>::empty());
            assert forall|k: AssetPairKey| #[trigger] r.spec_pool(k) == PoolState::spec_zero()
            by {
                assert(find_pool(r.pools@, k) is None);
            }
            assert forall|k: AssetPairKey, w: AccountId| #[trigger] r.spec_shares(k, w) == 0
            by {
                assert(find_pool(r.pools@, k) is None);
            }
            assert forall|a: AssetId, w: AccountId| #[trigger] r.spec_balance(a, w) == 0 by {
                assert(table::lookup(r.balances@, spec_bal_key(a, w)) == 0);
            }
        }
        r
    }

    /// Whether the registry holds `key`.
    pub fn is_enabled(&self, key: AssetPairKey) -> (r: bool)
        ensures
            r == self.spec_enabled(key),
    {
        let mut j: usize = 0;
        while j < self.enabled.len()
            invariant
                0 <= j <= self.enabled.len(),
                forall|i: int| 0 <= i < j ==> self.enabled@[i] != key,
            decreases self.enabled.len() - j,
        {
            if self.enabled[j] == key {
                assert(self.enabled@.contains(key)) by {
                    assert(self.enabled@[j as int] == key);
                }
                return true;
            }
            j += 1;
        }
        assert(!self.enabled@.contains(key));
        false
    }

    /// `who`'s spendable balance of `asset`.
    pub fn free_balance(&self, asset: AssetId, who: AccountId) -> (r: Balance)
        ensures
            r == self.spec_balance(asset, who),
    {
        table::table_get(&self.balances, bal_key(asset, who))
    }

    fn find_pool_index(&self, key: AssetPairKey) -> (r: Option<usize>)
        ensures
            match r {
                Some(i) => i < self.pools@.len() && self.pools@[i as int].key == key
                    && find_pool(self.pools@, key) == Some(self.pools@[i as int]),
                None => forall|i: int|
                    0 <= i < self.pools@.len() ==> #[trigger] self.pools@[i].key != key,
            },
    {
        let mut j: usize = 0;
        while j < self.pools.len()
            invariant
                0 <= j <= self.pools.len(),
                forall|i: int| 0 <= i < j ==> #[trigger] self.pools@[i].key != key,
            decreases self.pools.len() - j,
        {
            if self.pools[j].key == key {
                proof {
                    lemma_find_first(self.pools@, j as int, key);
                }
                return Some(j);
            }
            j += 1;
        }
        None
    }

    /// The pool addressed by the (unordered) pair; empty when absent.
    pub fn pool(&self, asset_a: AssetId, asset_b: AssetId) -> (r: PoolState)
        ensures
            r == self.spec_pool(spec_pair_key(asset_a, asset_b)),
    {
        let key = if asset_a < asset_b {
            AssetPairKey { low: asset_a, high: asset_b }
        } else {
            AssetPairKey { low: asset_b, high: asset_a }
        };
        match self.find_pool_index(key) {
            Some(i) => self.pools[i].state,
            None => {
                proof {
                    lemma_find_none(self.pools@, key);
                }
                PoolState::zero()
            }
        }
    }

    /// `who`'s shares of the pool addressed by the (unordered) pair.
    pub fn share_balance(&self, who: AccountId, asset_a: AssetId, asset_b: AssetId)
        -> (r: Balance)
        ensures
            r == self.spec_shares(spec_pair_key(asset_a, asset_b), who),
    {
        let key = if asset_a < asset_b {
            AssetPairKey { low: asset_a, high: asset_b }
        } else {
            AssetPairKey { low: asset_b, high: asset_a }
        };
        match self.find_pool_index(key) {
            Some(i) => table::table_get(&self.pools[i].holders, who as u128),
            None => {
                proof {
                    lemma_find_none(self.pools@, key);
                }
                0
            }
        }
    }

    /// Credits (`by_amount >= 0`) or debits (`by_amount < 0`) `who`'s
    /// balance of `asset`. A debit beyond the balance, or a credit that
    /// would not fit, fails and changes nothing.
    pub fn update_balance(&mut self, asset: AssetId, who: AccountId, by_amount: Amount)
        -> (r: Result<(), DexError>)
        requires
            old(self).wf(),
        ensures
            final(self).wf(),
            final(self).pools@ == old(self).pools@,
            final(self).enabled@ == old(self).enabled@,
            match r {
                Ok(()) => {
                    &&& spec_apply(old(self).spec_balance(asset, who), by_amount) is Some
                    &&& final(self).spec_balance(asset, who)
                        == old(self).spec_balance(asset, who) + by_amount
                    &&& forall|a2: AssetId, w2: AccountId| a2 != asset || w2 != who
                        ==> final(self).spec_balance(a2, w2) == old(self).spec_balance(a2, w2)
                },
                Err(e) => {
                    &&& e == DexError::LedgerError
                    &&& spec_apply(old(self).spec_balance(asset, who), by_amount) is None
                    &&& *final(self) == *old(self)
                },
            },
    {
        let k = bal_key(asset, who);
        let bal = table::table_get(&self.balances, k);
        if by_amount >= 0 {
            let mag = by_amount as u128;
            if mag > u128::MAX - bal {
                return Err(DexError::LedgerError);
            }
            table::table_add(&mut self.balances, k, mag);
            proof {
                lemma_balance_frame(*old(self), *self, asset, who);
            }
            Ok(())
        } else {
            let mag: u128 = if by_amount == i128::MIN {
                0x8000_0000_0000_0000_0000_0000_0000_0000u128
            } else {
                (-by_amount) as u128
            };
            if bal < mag {
                return Err(DexError::LedgerError);
            }
            table::table_sub(&mut self.balances, k, mag);
            proof {
                lemma_balance_frame(*old(self), *self, asset, who);
            }
            Ok(())
        }
    }

    /// Deposits into the pool of the (unordered) pair at most
    /// `max_amount_a` of `asset_a` and at most `max_amount_b` of
    /// `asset_b`, and mints shares to `who`. The first deposit into an
    /// empty pool is taken in full and sets the ratio, minting the
    /// low-leg amount as shares; a later deposit takes the largest
    /// amounts within the bounds that keep the pool's ratio and mints
    /// shares pro rata, rounded down. `add_decision` names the amounts
    /// and every way the call can fail; any failure changes nothing.
    pub fn add_liquidity(&mut self, who: AccountId, asset_a: AssetId, asset_b: AssetId,
        max_amount_a: Balance, max_amount_b: Balance) -> (r: Result<(), DexError>)
        requires
            old(self).wf(),
        ensures
            final(self).wf(),
            final(self).enabled@ == old(self).enabled@,
            ({
                let key = spec_pair_key(asset_a, asset_b);
                let d = add_decision(
                    old(self).spec_enabled(key), asset_a, asset_b, max_amount_a, max_amount_b,
                    old(self).spec_pool(key),
                    old(self).spec_balance(key.low, who),
                    old(self).spec_balance(key.high, who),
                );
                match r {
                    Ok(()) => match d {
                        Ok((al, ah, m)) => {
                            &&& final(self).spec_pool(key) == (PoolState {
                                reserve_low: (old(self).spec_pool(key).reserve_low + al) as u128,
                                reserve_high: (old(self).spec_pool(key).reserve_high + ah) as u128,
                                total_shares: (old(self).spec_pool(key).total_shares + m) as u128,
                            })
                            &&& final(self).spec_shares(key, who)
                                == old(self).spec_shares(key, who) + m
                            &&& final(self).spec_balance(key.low, who)
                                == old(self).spec_balance(key.low, who) - al
                            &&& final(self).spec_balance(key.high, who)
                                == old(self).spec_balance(key.high, who) - ah
                            &&& forall|k: AssetPairKey| k != key
                                ==> #[trigger] final(self).spec_pool(k) == old(self).spec_pool(k)
                            &&& forall|k: AssetPairKey, w: AccountId| k != key || w != who
                                ==> #[trigger] final(self).spec_shares(k, w)
                                    == old(self).spec_shares(k, w)
                            &&& forall|x: AssetId, w: AccountId|
                                !((x == key.low || x == key.high) && w == who)
                                ==> #[trigger] final(self).spec_balance(x, w)
                                    == old(self).spec_balance(x, w)
                        },
                        Err(_) => false,
                    },
                    Err(e) => {
                        &&& d == Err::<(int, int, int), DexError>(e)
                        &&& *final(self) == *old(self)
                    },
                }
            }),
    {
        let key = match normalize(asset_a, asset_b) {
            Err(e) => {
                return Err(e);
            }
            Ok(k) => k,
        };
        if !self.is_enabled(key) {
            return Err(DexError::InvalidTradingPairNotAllowed);
        }
        if max_amount_a == 0 || max_amount_b == 0 {
            return Err(DexError::InvalidLiquidityIncrement);
        }
        let (max_low, max_high) = if asset_a < asset_b {
            (max_amount_a, max_amount_b)
        } else {
            (max_amount_b, max_amount_a)
        };
        let idx = self.find_pool_index(key);
        let p = match idx {
            Some(i) => {
                proof {
                    assert(self.pools@[i as int].wf());
                }
                self.pools[i].state
            }
            None => {
                proof {
                    lemma_find_none(self.pools@, key);
                }
                PoolState::zero()
            }
        };
        assert(p == old(self).spec_pool(key));
        assert(p.wf());
        let (amount_low, amount_high, minted) = if p.total_shares == 0 {
            (max_low, max_high, max_low)
        } else {
            match grow_amounts(p.reserve_low, p.reserve_high, p.total_shares, max_low, max_high) {
                Err(e) => {
                    return Err(e);
                }
                Ok(v) => v,
            }
        };
        let kl = bal_key(key.low, who);
        let kh = bal_key(key.high, who);
        assert(kl != kh) by {
            if kl == kh {
                lemma_bal_key_injective(key.low, who, key.high, who);
            }
        }
        let bal_low = table::table_get(&self.balances, kl);
        let bal_high = table::table_get(&self.balances, kh);
        if bal_low < amount_low || bal_high < amount_high {
            return Err(DexError::LedgerError);
        }
        table::table_sub(&mut self.balances, kl, amount_low);
        table::table_sub(&mut self.balances, kh, amount_high);
        proof {
            lemma_balance_frame2(*old(self), *self, key.low, key.high, who);
        }
        let new_state = PoolState {
            reserve_low: p.reserve_low + amount_low,
            reserve_high: p.reserve_high + amount_high,
            total_shares: p.total_shares + minted,
        };
        match idx {
            Some(i) => {
                let ghost pre_pools = self.pools@;
                proof {
                    assert(pre_pools[i as int].wf());
                    table::lemma_lookup_le_sum(pre_pools[i as int].holders@, who as u128);
                }
                let entry = &mut self.pools[i];
                entry.state = new_state;
                table::table_add(&mut entry.holders, who as u128, minted);
                proof {
                    let e2 = self.pools@[i as int];
                    assert(self.pools@ =~= pre_pools.update(i as int, e2));
                    assert forall|k: AssetPairKey| #[trigger] find_pool(self.pools@, k)
                        == if k == key { Some(e2) } else { find_pool(pre_pools, k) } by {
                        lemma_find_update(pre_pools, i as int, e2, k);
                    }
                    lemma_find_update(pre_pools, i as int, e2, key);
                }
            }
            None => {
                let mut holders: Vec<(u128, u128)> = Vec::new();
                proof {
                    table::lemma_lookup_none(holders@, who as u128);
                }
                table::table_add(&mut holders, who as u128, minted);
                let ghost pre_pools = self.pools@;
                let e = PoolEntry { key, state: new_state, holders };
                self.pools.push(e);
                proof {
                    let e2 = self.pools@[pre_pools.len() as int];
                    assert(self.pools@ =~= pre_pools.push(e2));
                    assert forall|k: AssetPairKey| #[trigger] find_pool(self.pools@, k)
                        == if k == key { Some(e2) } else { find_pool(pre_pools, k) } by {
                        lemma_find_push(pre_pools, e2, k);
                    }
                    lemma_find_push(pre_pools, e2, key);
                }
            }
        }
        proof {
            assert forall|k: AssetPairKey, w: AccountId| k != key || w != who implies
                #[trigger] self.spec_shares(k, w) == old(self).spec_shares(k, w) by {
            }
        }
        Ok(())
    }

    /// Redeems `share_amount` of `who`'s shares of the pool of the
    /// (unordered) pair for the proportional part of each reserve,
    /// rounded down — dust stays in the pool. Redeeming every
    /// outstanding share empties the pool exactly. `withdraw_decision`
    /// names the amounts and every way the call can fail; any failure
    /// changes nothing.
    pub fn withdraw_liquidity(&mut self, who: AccountId, asset_a: AssetId, asset_b: AssetId,
        share_amount: Balance) -> (r: Result<(), DexError>)
        requires
            old(self).wf(),
        ensures
            final(self).wf(),
            final(self).enabled@ == old(self).enabled@,
            ({
                let key = spec_pair_key(asset_a, asset_b);
                let d = withdraw_decision(
                    asset_a, asset_b, share_amount,
                    old(self).spec_pool(key),
                    old(self).spec_shares(key, who),
                    old(self).spec_balance(key.low, who),
                    old(self).spec_balance(key.high, who),
                );
                match r {
                    Ok(()) => match d {
                        Ok((al, ah)) => {
                            &&& final(self).spec_pool(key) == (PoolState {
                                reserve_low: (old(self).spec_pool(key).reserve_low - al) as u128,
                                reserve_high: (old(self).spec_pool(key).reserve_high - ah) as u128,
                                total_shares: (old(self).spec_pool(key).total_shares
                                    - share_amount) as u128,
                            })
                            &&& final(self).spec_shares(key, who)
                                == old(self).spec_shares(key, who) - share_amount
                            &&& final(self).spec_balance(key.low, who)
                                == old(self).spec_balance(key.low, who) + al
                            &&& final(self).spec_balance(key.high, who)
                                == old(self).spec_balance(key.high, who) + ah
                            &&& forall|k: AssetPairKey| k != key
                                ==> #[trigger] final(self).spec_pool(k) == old(self).spec_pool(k)
                            &&& forall|k: AssetPairKey, w: AccountId| k != key || w != who
                                ==> #[trigger] final(self).spec_shares(k, w)
                                    == old(self).spec_shares(k, w)
                            &&& forall|x: AssetId, w: AccountId|
                                !((x == key.low || x == key.high) && w == who)
                                ==> #[trigger] final(self).spec_balance(x, w)
                                    == old(self).spec_balance(x, w)
                        },
                        Err(_) => false,
                    },
                    Err(e) => {
                        &&& d == Err::<(int, int), DexError>(e)
                        &&& *final(self) == *old(self)
                    },
                }
            }),
    {
        let key = match normalize(asset_a, asset_b) {
            Err(e) => {
                return Err(e);
            }
            Ok(k) => k,
        };
        if share_amount == 0 {
            return Err(DexError::InvalidLiquidityIncrement);
        }
        let i = match self.find_pool_index(key) {
            None => {
                proof {
                    lemma_find_none(self.pools@, key);
                }
                return Err(DexError::InsufficientShares);
            }
            Some(i) => i,
        };
        proof {
            assert(self.pools@[i as int].wf());
        }
        let holder = table::table_get(&self.pools[i].holders, who as u128);
        if holder < share_amount {
            return Err(DexError::InsufficientShares);
        }
        proof {
            table::lemma_lookup_le_sum(self.pools@[i as int].holders@, who as u128);
        }
        let p = self.pools[i].state;
        let (al, ah) = match redeem_amounts(
            p.reserve_low, p.reserve_high, p.total_shares, share_amount,
        ) {
            Err(e) => {
                return Err(e);
            }
            Ok(v) => v,
        };
        let kl = bal_key(key.low, who);
        let kh = bal_key(key.high, who);
        assert(kl != kh) by {
            if kl == kh {
                lemma_bal_key_injective(key.low, who, key.high, who);
            }
        }
        let bal_low = table::table_get(&self.balances, kl);
        let bal_high = table::table_get(&self.balances, kh);
        if al > u128::MAX - bal_low || ah > u128::MAX - bal_high {
            return Err(DexError::LedgerError);
        }
        proof {
            lemma_scale_le(p.reserve_low as int, share_amount as int, p.total_shares as int);
            lemma_scale_le(p.reserve_high as int, share_amount as int, p.total_shares as int);
            if share_amount < p.total_shares {
                lemma_scale_lt(p.reserve_low as int, share_amount as int, p.total_shares as int);
                lemma_scale_lt(p.reserve_high as int, share_amount as int, p.total_shares as int);
            } else {
                lemma_scale_all(p.reserve_low as int, p.total_shares as int);
                lemma_scale_all(p.reserve_high as int, p.total_shares as int);
            }
        }
        let new_state = PoolState {
            reserve_low: p.reserve_low - al,
            reserve_high: p.reserve_high - ah,
            total_shares: p.total_shares - share_amount,
        };
        let ghost pre_pools = self.pools@;
        let entry = &mut self.pools[i];
        entry.state = new_state;
        table::table_sub(&mut entry.holders, who as u128, share_amount);
        proof {
            let e2 = self.pools@[i as int];
            assert(self.pools@ =~= pre_pools.update(i as int, e2));
            assert forall|k: AssetPairKey| #[trigger] find_pool(self.pools@, k)
                == if k == key { Some(e2) } else { find_pool(pre_pools, k) } by {
                lemma_find_update(pre_pools, i as int, e2, k);
            }
            lemma_find_update(pre_pools, i as int, e2, key);
        }
        table::table_add(&mut self.balances, kl, al);
        table::table_add(&mut self.balances, kh, ah);
        proof {
            lemma_balance_frame2(*old(self), *self, key.low, key.high, who);
            assert forall|k: AssetPairKey, w: AccountId| k != key || w != who implies
                #[trigger] self.spec_shares(k, w) == old(self).spec_shares(k, w) by {
            }
        }
        Ok(())
    }
}

/// The stage at which `inject_liquidity` stops: the result of crediting
/// the maker with both maxima (saturating) and then depositing with those
/// maxima as bounds, over the observables of the starting state.
pub open spec fn inject_decision(pre: Dex, maker: AccountId, a: AssetId, b: AssetId,
    max_a: Balance, max_b: Balance) -> Result<(int, int, int), DexError> {
    let s_a = spec_saturating_amount(max_a);
    let bal_a = pre.spec_balance(a, maker);
    if bal_a + s_a > u128::MAX {
        Err(DexError::LedgerError)
    } else {
        let s_b = spec_saturating_amount(max_b);
        let bal_b: int = if b == a { bal_a + s_a } else { pre.spec_balance(b, maker) as int };
        if bal_b + s_b > u128::MAX {
            Err(DexError::LedgerError)
        } else {
            let key = spec_pair_key(a, b);
            let bal_low: int = if a < b { bal_a + s_a } else { bal_b + s_b };
            let bal_high: int = if a < b { bal_b + s_b } else { bal_a + s_a };
            add_decision(pre.spec_enabled(key), a, b, max_a, max_b, pre.spec_pool(key),
                bal_low as u128, bal_high as u128)
        }
    }
}

/// Funds `maker` with both maxima and deposits them as a maker's
/// liquidity: credits `max_amount_a` of `currency_id_a` and
/// `max_amount_b` of `currency_id_b` (each saturated to the largest
/// representable credit), then calls `add_liquidity` with the same
/// bounds. A failed credit stops before the deposit, so an early failure
/// can leave the first credit in place; the deposit itself is
/// all-or-nothing.
pub fn inject_liquidity(dex: &mut Dex, maker: AccountId, currency_id_a: AssetId,
    currency_id_b: AssetId, max_amount_a: Balance, max_amount_b: Balance)
    -> (r: Result<(), DexError>)
    requires
        old(dex).wf(),
    ensures
        final(dex).wf(),
        final(dex).enabled@ == old(dex).enabled@,
        ({
            let a = currency_id_a;
            let b = currency_id_b;
            let key = spec_pair_key(a, b);
            let d = inject_decision(*old(dex), maker, a, b, max_amount_a, max_amount_b);
            let s_a = spec_saturating_amount(max_amount_a);
            let s_b = spec_saturating_amount(max_amount_b);
            let bal_a = old(dex).spec_balance(a, maker);
            let bal_b: int = if b == a { bal_a + s_a } else { old(dex).spec_balance(b, maker) as int };
            let credit_a_ok = bal_a + s_a <= u128::MAX;
            let credit_b_ok = credit_a_ok && bal_b + s_b <= u128::MAX;
            &&& (forall|x: AssetId, w: AccountId| !((x == a || x == b) && w == maker)
                ==> #[trigger] final(dex).spec_balance(x, w) == old(dex).spec_balance(x, w))
            &&& match r {
                Ok(()) => match d {
                    Ok((al, ah, m)) => {
                        &&& a != b
                        &&& final(dex).spec_balance(a, maker)
                            == bal_a + s_a - (if a < b { al } else { ah })
                        &&& final(dex).spec_balance(b, maker)
                            == bal_b + s_b - (if a < b { ah } else { al })
                        &&& final(dex).spec_pool(key) == (PoolState {
                            reserve_low: (old(dex).spec_pool(key).reserve_low + al) as u128,
                            reserve_high: (old(dex).spec_pool(key).reserve_high + ah) as u128,
                            total_shares: (old(dex).spec_pool(key).total_shares + m) as u128,
                        })
                        &&& final(dex).spec_shares(key, maker)
                            == old(dex).spec_shares(key, maker) + m
                        &&& forall|k: AssetPairKey| k != key
                            ==> #[trigger] final(dex).spec_pool(k) == old(dex).spec_pool(k)
                        &&& forall|k: AssetPairKey, w: AccountId| k != key || w != maker
                            ==> #[trigger] final(dex).spec_shares(k, w)
                                == old(dex).spec_shares(k, w)
                    },
                    Err(_) => false,
                },
                Err(e) => {
                    &&& d == Err::<(int, int, int), DexError>(e)
                    &&& final(dex).spec_balance(a, maker) == if !credit_a_ok {
                        bal_a as int
                    } else if a == b && credit_b_ok {
                        bal_a + s_a + s_b
                    } else {
                        bal_a + s_a
                    }
                    &&& a != b ==> final(dex).spec_balance(b, maker)
                        == if credit_b_ok { bal_b + s_b } else { bal_b }
                    &&& forall|k: AssetPairKey|
                        #[trigger] final(dex).spec_pool(k) == old(dex).spec_pool(k)
                    &&& forall|k: AssetPairKey, w: AccountId|
                        #[trigger] final(dex).spec_shares(k, w) == old(dex).spec_shares(k, w)
                },
            }
        }),
{
    match dex.update_balance(currency_id_a, maker, saturating_amount(max_amount_a)) {
        Err(e) => {
            return Err(e);
        }
        Ok(()) => {}
    }
    match dex.update_balance(currency_id_b, maker, saturating_amount(max_amount_b)) {
        Err(e) => {
            return Err(e);
        }
        Ok(()) => {}
    }
    match dex.add_liquidity(maker, currency_id_a, currency_id_b, max_amount_a, max_amount_b) {
        Err(e) => {
            return Err(e);
        }
        Ok(()) => {}
    }
    Ok(())
}

/// Lifts "no ledger key but these two changed" to "no balance but the
/// caller's two changed".
proof fn lemma_balance_frame2(pre: Dex, post: Dex, a1: AssetId, a2: AssetId, who: AccountId)
    requires
        forall|q: u128| q != spec_bal_key(a1, who) && q != spec_bal_key(a2, who)
            ==> table::lookup(post.balances@, q) == table::lookup(pre.balances@, q),
    ensures
        forall|x: AssetId, w: AccountId| !((x == a1 || x == a2) && w == who)
            ==> #[trigger] post.spec_balance(x, w) == pre.spec_balance(x, w),
{
    assert forall|x: AssetId, w: AccountId| !((x == a1 || x == a2) && w == who) implies
        #[trigger] post.spec_balance(x, w) == pre.spec_balance(x, w) by {
        if spec_bal_key(x, w) == spec_bal_key(a1, who) {
            lemma_bal_key_injective(x, w, a1, who);
        }
        if spec_bal_key(x, w) == spec_bal_key(a2, who) {
            lemma_bal_key_injective(x, w, a2, who);
        }
    }
}

/// Lifts "every other ledger key is unchanged" to "every other
/// (asset, account) balance is unchanged".
proof fn lemma_balance_frame(pre: Dex, post: Dex, asset: AssetId, who: AccountId)
    requires
        forall|q: u128| q != spec_bal_key(asset, who)
            ==> table::lookup(post.balances@, q) == table::lookup(pre.balances@, q),
    ensures
        forall|a2: AssetId, w2: AccountId| a2 != asset || w2 != who
            ==> #[trigger] post.spec_balance(a2, w2) == pre.spec_balance(a2, w2),
{
    assert forall|a2: AssetId, w2: AccountId| a2 != asset || w2 != who implies
        #[trigger] post.spec_balance(a2, w2) == pre.spec_balance(a2, w2) by {
        if spec_bal_key(a2, w2) == spec_bal_key(asset, who) {
            lemma_bal_key_injective(a2, w2, asset, who);
        }
    }
}

/// `find_pool` returns the record at the first index that carries `key`.
proof fn lemma_find_first(s: Seq<PoolEntry>, i: int, key: AssetPairKey)
    requires
        0 <= i < s.len(),
        s[i].key == key,
        forall|j: int| 0 <= j < i ==> #[trigger] s[j].key != key,
    ensures
        find_pool(s, key) == Some(s[i]),
    decreases s.len(),
{
    if i > 0 {
        assert forall|j: int| 0 <= j < i - 1 implies #[trigger] s.drop_first()[j].key != key by {
            assert(s[j + 1].key != key);
        }
        lemma_find_first(s.drop_first(), i - 1, key);
    }
}

} // verus!
