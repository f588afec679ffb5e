use dex::dollar;
use dex::engine::{inject_liquidity, saturating_amount, Dex};
use dex::pair::{normalize, AssetPairKey};
use dex::DexError;

const ASSET_A: u32 = 1;
const ASSET_B: u32 = 2;

fn pair_ab() -> AssetPairKey {
    AssetPairKey { low: ASSET_A, high: ASSET_B }
}

fn new_dex() -> Dex {
    Dex::new(vec![pair_ab()])
}

#[test]
fn add_liquidity() {
    let mut d = new_dex();
    let first_maker: u64 = 10;
    let second_maker: u64 = 20;
    let amount_a = dollar(100);
    let amount_b = dollar(10000);

    assert!(d.update_balance(ASSET_A, second_maker, saturating_amount(amount_a)).is_ok());
    assert!(d.update_balance(ASSET_B, second_maker, saturating_amount(amount_b)).is_ok());

    assert!(
        inject_liquidity(&mut d, first_maker, ASSET_A, ASSET_B, dollar(100), dollar(10000))
            .is_ok()
    );

    assert!(d.add_liquidity(second_maker, ASSET_A, ASSET_B, amount_a, amount_b).is_ok());
}

#[test]
fn withdraw_liquidity() {
    let mut d = new_dex();
    let maker: u64 = 10;
    assert!(
        inject_liquidity(&mut d, maker, ASSET_A, ASSET_B, dollar(100), dollar(10000)).is_ok()
    );
    assert!(d.withdraw_liquidity(maker, ASSET_A, ASSET_B, dollar(50)).is_ok());
}

#[test]
fn dollar_is_exact() {
    assert_eq!(dollar(0), 0);
    assert_eq!(dollar(1), 1_000_000_000_000_000_000);
    assert_eq!(dollar(100), 100_000_000_000_000_000_000);
    assert_eq!(dollar(u32::MAX), u32::MAX as u128 * 1_000_000_000_000_000_000);
}

#[test]
fn normalize_orders_the_pair() {
    assert_eq!(normalize(ASSET_A, ASSET_B), Ok(pair_ab()));
    assert_eq!(normalize(ASSET_B, ASSET_A), Ok(pair_ab()));
    assert_eq!(normalize(ASSET_A, ASSET_A), Err(DexError::InvalidPair));
}

#[test]
fn saturating_amount_saturates() {
    assert_eq!(saturating_amount(0), 0);
    assert_eq!(saturating_amount(42), 42);
    assert_eq!(saturating_amount(i128::MAX as u128), i128::MAX);
    assert_eq!(saturating_amount(i128::MAX as u128 + 1), i128::MAX);
    assert_eq!(saturating_amount(u128::MAX), i128::MAX);
}

#[test]
fn update_balance_credits_and_debits() {
    let mut d = new_dex();
    let who: u64 = 7;
    assert_eq!(d.free_balance(ASSET_A, who), 0);
    assert!(d.update_balance(ASSET_A, who, 1000).is_ok());
    assert_eq!(d.free_balance(ASSET_A, who), 1000);
    assert!(d.update_balance(ASSET_A, who, -300).is_ok());
    assert_eq!(d.free_balance(ASSET_A, who), 700);
    assert_eq!(d.update_balance(ASSET_A, who, -701), Err(DexError::LedgerError));
    assert_eq!(d.free_balance(ASSET_A, who), 700);
    assert_eq!(d.free_balance(ASSET_B, who), 0);
}

#[test]
fn bootstrap_deposit_sets_reserves_and_mints_low_leg() {
    let mut d = new_dex();
    let maker: u64 = 1;
    assert!(inject_liquidity(&mut d, maker, ASSET_A, ASSET_B, 100, 10000).is_ok());
    let p = d.pool(ASSET_A, ASSET_B);
    assert_eq!(p.reserve_low, 100);
    assert_eq!(p.reserve_high, 10000);
    assert_eq!(p.total_shares, 100);
    assert_eq!(d.share_balance(maker, ASSET_A, ASSET_B), 100);
    assert_eq!(d.free_balance(ASSET_A, maker), 0);
    assert_eq!(d.free_balance(ASSET_B, maker), 0);
}

#[test]
fn second_deposit_is_constrained_by_the_ratio() {
    let mut d = new_dex();
    let first: u64 = 1;
    let second: u64 = 2;
    assert!(inject_liquidity(&mut d, first, ASSET_A, ASSET_B, 100, 10000).is_ok());

    assert!(d.update_balance(ASSET_A, second, 50).is_ok());
    assert!(d.update_balance(ASSET_B, second, 10000).is_ok());
    assert!(d.add_liquidity(second, ASSET_A, ASSET_B, 50, 10000).is_ok());

    let p = d.pool(ASSET_A, ASSET_B);
    assert_eq!(p.reserve_low, 150);
    assert_eq!(p.reserve_high, 15000);
    assert_eq!(p.total_shares, 150);
    assert_eq!(d.share_balance(second, ASSET_A, ASSET_B), 50);
    // Only the proportional 5000 of the high asset was taken.
    assert_eq!(d.free_balance(ASSET_A, second), 0);
    assert_eq!(d.free_balance(ASSET_B, second), 5000);
}

#[test]
fn deposit_order_of_assets_does_not_matter() {
    let mut d = new_dex();
    let first: u64 = 1;
    let second: u64 = 2;
    assert!(inject_liquidity(&mut d, first, ASSET_A, ASSET_B, 100, 10000).is_ok());

    // The same deposit, handed in as (high, low).
    assert!(d.update_balance(ASSET_A, second, 50).is_ok());
    assert!(d.update_balance(ASSET_B, second, 10000).is_ok());
    assert!(d.add_liquidity(second, ASSET_B, ASSET_A, 10000, 50).is_ok());

    let p = d.pool(ASSET_A, ASSET_B);
    assert_eq!(p.reserve_low, 150);
    assert_eq!(p.reserve_high, 15000);
    assert_eq!(p.total_shares, 150);
    assert_eq!(d.share_balance(second, ASSET_A, ASSET_B), 50);
}

#[test]
fn proportional_amounts_round_down() {
    let mut d = new_dex();
    let first: u64 = 1;
    let second: u64 = 2;
    assert!(inject_liquidity(&mut d, first, ASSET_A, ASSET_B, 100, 10000).is_ok());

    // 50 of the low asset would need 5000 of the high one; only 4999 is
    // offered, so the low leg is scaled down to floor(4999 * 100 / 10000) = 49.
    assert!(d.update_balance(ASSET_A, second, 50).is_ok());
    assert!(d.update_balance(ASSET_B, second, 4999).is_ok());
    assert!(d.add_liquidity(second, ASSET_A, ASSET_B, 50, 4999).is_ok());

    let p = d.pool(ASSET_A, ASSET_B);
    assert_eq!(p.reserve_low, 149);
    assert_eq!(p.reserve_high, 14999);
    assert_eq!(p.total_shares, 149);
    assert_eq!(d.share_balance(second, ASSET_A, ASSET_B), 49);
    assert_eq!(d.free_balance(ASSET_A, second), 1);
    assert_eq!(d.free_balance(ASSET_B, second), 0);
}

#[test]
fn partial_withdrawal_returns_the_proportional_amounts() {
    let mut d = new_dex();
    let first: u64 = 1;
    let second: u64 = 2;
    assert!(inject_liquidity(&mut d, first, ASSET_A, ASSET_B, 100, 10000).is_ok());
    assert!(inject_liquidity(&mut d, second, ASSET_A, ASSET_B, 50, 5000).is_ok());

    // The pool is at (150, 15000) with 150 shares; second holds 50 of them.
    assert!(d.withdraw_liquidity(second, ASSET_A, ASSET_B, 50).is_ok());

    let p = d.pool(ASSET_A, ASSET_B);
    assert_eq!(p.reserve_low, 100);
    assert_eq!(p.reserve_high, 10000);
    assert_eq!(p.total_shares, 100);
    assert_eq!(d.share_balance(second, ASSET_A, ASSET_B), 0);
    assert_eq!(d.free_balance(ASSET_A, second), 50);
    assert_eq!(d.free_balance(ASSET_B, second), 5000);
}

#[test]
fn bootstrap_round_trip_returns_exactly_the_deposit() {
    let mut d = new_dex();
    let maker: u64 = 1;
    assert!(d.update_balance(ASSET_A, maker, 123).is_ok());
    assert!(d.update_balance(ASSET_B, maker, 4567).is_ok());
    assert!(d.add_liquidity(maker, ASSET_A, ASSET_B, 123, 4567).is_ok());
    assert!(d.withdraw_liquidity(maker, ASSET_A, ASSET_B, 123).is_ok());
    assert_eq!(d.free_balance(ASSET_A, maker), 123);
    assert_eq!(d.free_balance(ASSET_B, maker), 4567);
}

#[test]
fn full_exit_leaves_the_pool_exactly_empty() {
    let mut d = new_dex();
    let first: u64 = 1;
    let second: u64 = 2;
    assert!(inject_liquidity(&mut d, first, ASSET_A, ASSET_B, 100, 10000).is_ok());
    assert!(inject_liquidity(&mut d, second, ASSET_A, ASSET_B, 50, 5000).is_ok());
    assert!(d.withdraw_liquidity(second, ASSET_A, ASSET_B, 50).is_ok());
    assert!(d.withdraw_liquidity(first, ASSET_A, ASSET_B, 100).is_ok());

    let p = d.pool(ASSET_A, ASSET_B);
    assert_eq!(p.reserve_low, 0);
    assert_eq!(p.reserve_high, 0);
    assert_eq!(p.total_shares, 0);
    assert_eq!(d.share_balance(first, ASSET_A, ASSET_B), 0);
    assert_eq!(d.share_balance(second, ASSET_A, ASSET_B), 0);
}

#[test]
fn shares_of_all_holders_sum_to_total_shares() {
    let mut d = new_dex();
    let holders: [u64; 3] = [1, 2, 3];
    assert!(inject_liquidity(&mut d, holders[0], ASSET_A, ASSET_B, 100, 10000).is_ok());
    assert!(inject_liquidity(&mut d, holders[1], ASSET_A, ASSET_B, 50, 5000).is_ok());
    assert!(inject_liquidity(&mut d, holders[2], ASSET_A, ASSET_B, 30, 3000).is_ok());
    assert!(d.withdraw_liquidity(holders[1], ASSET_A, ASSET_B, 20).is_ok());

    let total: u128 = holders
        .iter()
        .map(|h| d.share_balance(*h, ASSET_A, ASSET_B))
        .sum();
    assert_eq!(total, d.pool(ASSET_A, ASSET_B).total_shares);
}

#[test]
fn zero_bound_is_refused_with_no_state_change() {
    let mut d = new_dex();
    let maker: u64 = 1;
    assert!(d.update_balance(ASSET_A, maker, 100).is_ok());
    assert!(d.update_balance(ASSET_B, maker, 100).is_ok());
    assert_eq!(
        d.add_liquidity(maker, ASSET_A, ASSET_B, 0, 100),
        Err(DexError::InvalidLiquidityIncrement)
    );
    assert_eq!(
        d.add_liquidity(maker, ASSET_A, ASSET_B, 100, 0),
        Err(DexError::InvalidLiquidityIncrement)
    );
    let p = d.pool(ASSET_A, ASSET_B);
    assert_eq!(p.total_shares, 0);
    assert_eq!(d.free_balance(ASSET_A, maker), 100);
    assert_eq!(d.free_balance(ASSET_B, maker), 100);
}

#[test]
fn withdrawing_more_than_held_is_refused_with_no_state_change() {
    let mut d = new_dex();
    let maker: u64 = 1;
    let other: u64 = 2;
    assert!(inject_liquidity(&mut d, maker, ASSET_A, ASSET_B, 100, 10000).is_ok());
    assert_eq!(
        d.withdraw_liquidity(maker, ASSET_A, ASSET_B, 101),
        Err(DexError::InsufficientShares)
    );
    assert_eq!(
        d.withdraw_liquidity(other, ASSET_A, ASSET_B, 1),
        Err(DexError::InsufficientShares)
    );
    let p = d.pool(ASSET_A, ASSET_B);
    assert_eq!(p.reserve_low, 100);
    assert_eq!(p.reserve_high, 10000);
    assert_eq!(p.total_shares, 100);
}

#[test]
fn zero_share_withdrawal_is_refused() {
    let mut d = new_dex();
    let maker: u64 = 1;
    assert!(inject_liquidity(&mut d, maker, ASSET_A, ASSET_B, 100, 10000).is_ok());
    assert_eq!(
        d.withdraw_liquidity(maker, ASSET_A, ASSET_B, 0),
        Err(DexError::InvalidLiquidityIncrement)
    );
}

#[test]
fn self_pair_is_refused() {
    let mut d = new_dex();
    let maker: u64 = 1;
    assert_eq!(
        d.add_liquidity(maker, ASSET_A, ASSET_A, 100, 100),
        Err(DexError::InvalidPair)
    );
    assert_eq!(
        d.withdraw_liquidity(maker, ASSET_A, ASSET_A, 1),
        Err(DexError::InvalidPair)
    );
}

#[test]
fn unregistered_pair_is_refused() {
    let mut d = new_dex();
    let maker: u64 = 1;
    assert!(d.update_balance(3, maker, 100).is_ok());
    assert!(d.update_balance(4, maker, 100).is_ok());
    assert_eq!(
        d.add_liquidity(maker, 3, 4, 100, 100),
        Err(DexError::InvalidTradingPairNotAllowed)
    );
}

#[test]
fn unfunded_deposit_is_refused() {
    let mut d = new_dex();
    let maker: u64 = 1;
    assert!(d.update_balance(ASSET_A, maker, 99).is_ok());
    assert!(d.update_balance(ASSET_B, maker, 10000).is_ok());
    assert_eq!(
        d.add_liquidity(maker, ASSET_A, ASSET_B, 100, 10000),
        Err(DexError::LedgerError)
    );
    let p = d.pool(ASSET_A, ASSET_B);
    assert_eq!(p.total_shares, 0);
    assert_eq!(d.free_balance(ASSET_A, maker), 99);
    assert_eq!(d.free_balance(ASSET_B, maker), 10000);
}

#[test]
fn negligible_deposit_is_refused() {
    let mut d = new_dex();
    let first: u64 = 1;
    let second: u64 = 2;
    assert!(inject_liquidity(&mut d, first, ASSET_A, ASSET_B, 100, 10000).is_ok());
    // 50 of the high asset scales the low leg to floor(50 * 100 / 10000) = 0.
    assert!(d.update_balance(ASSET_A, second, 50).is_ok());
    assert!(d.update_balance(ASSET_B, second, 50).is_ok());
    assert_eq!(
        d.add_liquidity(second, ASSET_A, ASSET_B, 50, 50),
        Err(DexError::InvalidLiquidityIncrement)
    );
    let p = d.pool(ASSET_A, ASSET_B);
    assert_eq!(p.reserve_low, 100);
    assert_eq!(p.total_shares, 100);
}

#[test]
fn withdrawal_dust_stays_in_the_pool() {
    let mut d = new_dex();
    let maker: u64 = 1;
    // Reserves (1000, 7); one share is worth (10, 0.07): the high leg
    // rounds to zero and its dust stays behind.
    assert!(inject_liquidity(&mut d, maker, ASSET_A, ASSET_B, 1000, 7).is_ok());
    assert!(d.withdraw_liquidity(maker, ASSET_A, ASSET_B, 10).is_ok());
    let p = d.pool(ASSET_A, ASSET_B);
    assert_eq!(p.reserve_low, 990);
    assert_eq!(p.reserve_high, 7);
    assert_eq!(p.total_shares, 990);
    assert_eq!(d.free_balance(ASSET_A, maker), 10);
    assert_eq!(d.free_balance(ASSET_B, maker), 0);
}

#[test]
fn pools_of_different_pairs_are_independent() {
    let mut d = Dex::new(vec![
        AssetPairKey { low: 1, high: 2 },
        AssetPairKey { low: 1, high: 3 },
    ]);
    let maker: u64 = 1;
    assert!(inject_liquidity(&mut d, maker, 1, 2, 100, 200).is_ok());
    assert!(inject_liquidity(&mut d, maker, 1, 3, 300, 400).is_ok());
    assert!(d.withdraw_liquidity(maker, 1, 2, 100).is_ok());

    let p12 = d.pool(1, 2);
    assert_eq!(p12.total_shares, 0);
    let p13 = d.pool(1, 3);
    assert_eq!(p13.reserve_low, 300);
    assert_eq!(p13.reserve_high, 400);
    assert_eq!(p13.total_shares, 300);
}
