//! The laws of the pool accounting, stated over the same spec functions
//! that the operations' contracts use, and proved once and for all.

use vstd::prelude::*;
use crate::Balance;
use crate::engine::{find_pool, lemma_find_in, Dex};
use crate::pair::AssetPairKey;
use crate::pool::{
    grow_outcome, lemma_scale_all, lemma_scale_le, lemma_scaled_low_fits, withdraw_outcome,
    PoolState,
};
use crate::table;

verus! {

/// Conservation: in every well-formed state — and every operation both
/// requires and re-establishes well-formedness — the shares held of a
/// pool by all accounts together sum to exactly that pool's
/// `total_shares`.
pub proof fn lemma_share_conservation(d: Dex, key: AssetPairKey)
    requires
        d.wf(),
    ensures
        match find_pool(d.pools@, key) {
            Some(e) => table::sum_values(e.holders@) == e.state.total_shares,
            None => true,
        },
{
    if find_pool(d.pools@, key) is Some {
        lemma_find_in(d.pools@, key);
        let i = choose|i: int|
            0 <= i < d.pools@.len() && #[trigger] d.pools@[i] == find_pool(d.pools@, key).unwrap();
        assert(d.pools@[i].wf());
    }
}

/// No free extraction: redeeming `s` shares returns exactly
/// `floor(reserve * s / total_shares)` on each leg — never more than the
/// proportional entitlement, and never more than the reserve itself.
pub proof fn lemma_no_free_extraction(rl: Balance, rh: Balance, ts: Balance, s: Balance)
    requires
        0 < s <= ts,
    ensures
        match withdraw_outcome(rl as int, rh as int, ts as int, s as int) {
            Some((al, ah)) => {
                &&& al == rl * s / (ts as int)
                &&& ah == rh * s / (ts as int)
                &&& al <= rl
                &&& ah <= rh
            },
            None => true,
        },
{
    lemma_scale_le(rl as int, s as int, ts as int);
    lemma_scale_le(rh as int, s as int, ts as int);
}

/// Ratio preservation: the amounts a deposit into a non-empty pool takes
/// stand in the pool's reserve ratio up to less than one unit on each
/// leg — `amount_low / amount_high` and `reserve_low / reserve_high`
/// differ only by the rounding of one integer division — and never
/// exceed the caller's bounds.
pub proof fn lemma_ratio_preservation(rl: Balance, rh: Balance, ts: Balance, ml: Balance,
    mh: Balance)
    requires
        rl > 0,
        rh > 0,
        ts > 0,
        ml > 0,
        mh > 0,
    ensures
        match grow_outcome(rl as int, rh as int, ts as int, ml as int, mh as int) {
            Some((al, ah, m)) => {
                &&& al <= ml
                &&& ah <= mh
                &&& al * rh < (ah + 1) * rl
                &&& ah * rl < (al + 1) * rh
            },
            None => true,
        },
{
    let rli = rl as int;
    let rhi = rh as int;
    let mli = ml as int;
    let mhi = mh as int;
    let q1 = mli * rhi / rli;
    assert(q1 * rli <= mli * rhi < (q1 + 1) * rli) by (nonlinear_arith)
        requires
            rli > 0,
            mli >= 0,
            rhi >= 0,
            q1 == mli * rhi / rli,
    ;
    if q1 <= mhi {
        assert(mli * rhi < (mli + 1) * rhi) by (nonlinear_arith)
            requires
                rhi > 0,
                mli >= 0,
        ;
    } else {
        let q2 = mhi * rli / rhi;
        assert(q2 * rhi <= mhi * rli < (q2 + 1) * rhi) by (nonlinear_arith)
            requires
                rhi > 0,
                mhi >= 0,
                rli >= 0,
                q2 == mhi * rli / rhi,
        ;
        assert(mhi * rli < (mhi + 1) * rli) by (nonlinear_arith)
            requires
                rli > 0,
                mhi >= 0,
        ;
        lemma_scaled_low_fits(rli, rhi, mli, mhi);
    }
}

/// Round trip: a bootstrap deposit of `(ml, mh)` into an empty pool sets
/// reserves `(ml, mh)` and mints `ml` shares; immediately redeeming all
/// `ml` shares returns exactly `(ml, mh)` — the bootstrap path loses
/// nothing to rounding.
pub proof fn lemma_bootstrap_round_trip(ml: Balance, mh: Balance)
    requires
        0 < ml,
        0 < mh,
    ensures
        withdraw_outcome(ml as int, mh as int, ml as int, ml as int)
            == Some((ml as int, mh as int)),
{
    lemma_scale_all(ml as int, ml as int);
    lemma_scale_all(mh as int, ml as int);
}

/// Idempotent emptiness: redeeming every outstanding share returns both
/// reserves whole, so reserves and total shares reach exactly zero — no
/// dust is left behind for a later depositor to mis-price.
pub proof fn lemma_full_exit_empties(p: PoolState)
    requires
        p.wf(),
        p.total_shares > 0,
    ensures
        withdraw_outcome(
            p.reserve_low as int,
            p.reserve_high as int,
            p.total_shares as int,
            p.total_shares as int,
        ) == Some((p.reserve_low as int, p.reserve_high as int)),
{
    lemma_scale_all(p.reserve_low as int, p.total_shares as int);
    lemma_scale_all(p.reserve_high as int, p.total_shares as int);
}

} // verus!
