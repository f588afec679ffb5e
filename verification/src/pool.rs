//! Per-pool reserve and share arithmetic.
//!
//! A pool holds reserves of its pair's two assets and a count of
//! outstanding shares. The functions here compute what a deposit or a
//! redemption does to a single pool; they are pure integer arithmetic,
//! with products taken at full width so no intermediate can overflow,
//! and every division rounding down, in the pool's favour.

use vstd::prelude::*;
use vstd::arithmetic::div_mod::{lemma_fundamental_div_mod, lemma_fundamental_div_mod_converse};
use crate::{Balance, DexError};

verus! {

/// The record of one pool: holdings of the pair's low and high asset and
/// the total of all outstanding shares.
#[derive(Clone, Copy, Debug, PartialEq, Eq, Structural)]
pub struct PoolState {
    pub reserve_low: Balance,
    pub reserve_high: Balance,
    pub total_shares: Balance,
}

impl PoolState {
    /// A pool is either fully empty or has strictly positive reserves on
    /// both legs and strictly positive shares.
    pub open spec fn wf(self) -> bool {
        &&& (self.reserve_low == 0 <==> self.total_shares == 0)
        &&& (self.reserve_high == 0 <==> self.total_shares == 0)
    }

    pub open spec fn is_empty(self) -> bool {
        self.total_shares == 0
    }

    /// The empty pool; also what an absent pool record reads as.
    pub open spec fn spec_zero() -> PoolState {
        PoolState { reserve_low: 0, reserve_high: 0, total_shares: 0 }
    }

    pub fn zero() -> (r: PoolState)
        ensures
            r == PoolState::spec_zero(),
    {
        PoolState { reserve_low: 0, reserve_high: 0, total_shares: 0 }
    }
}

/// What a deposit into a non-empty pool yields: `Some((amount_low,
/// amount_high, minted))` for the amounts actually taken and the shares
/// minted, or `None` when the deposit is degenerate — a leg or the
/// minted shares round to zero, or a reserve or the share total would
/// no longer fit in a `Balance`.
///
/// The amounts are the largest pair within the caller's bounds that keeps
/// the pool's ratio: first the high leg is scaled down to match `max_low`;
/// if that exceeds `max_high`, the low leg is scaled down to match
/// `max_high` instead. Shares are minted pro rata on the low leg,
/// rounded down.
pub open spec fn grow_outcome(rl: int, rh: int, ts: int, max_low: int, max_high: int)
    -> Option<(int, int, int)>
{
    if max_low * rh / rl <= max_high {
        grow_finish(rl, rh, ts, max_low, max_low * rh / rl)
    } else {
        grow_finish(rl, rh, ts, max_high * rl / rh, max_high)
    }
}

/// The tail of `grow_outcome` once the deposit amounts are fixed.
pub open spec fn grow_finish(rl: int, rh: int, ts: int, al: int, ah: int)
    -> Option<(int, int, int)>
{
    if al <= 0 || ah <= 0 {
        None
    } else {
        let minted = ts * al / rl;
        if minted <= 0 {
            None
        } else if rl + al > u128::MAX || rh + ah > u128::MAX || ts + minted > u128::MAX {
            None
        } else {
            Some((al, ah, minted))
        }
    }
}

/// What redeeming `s` shares from a pool yields: `Some((amount_low,
/// amount_high))`, each the redeemer's proportional entitlement rounded
/// down, or `None` when both amounts round to zero. Rounding dust stays
/// in the pool.
pub open spec fn withdraw_outcome(rl: int, rh: int, ts: int, s: int) -> Option<(int, int)> {
    let al = rl * s / ts;
    let ah = rh * s / ts;
    if al == 0 && ah == 0 {
        None
    } else {
        Some((al, ah))
    }
}

/// Floor division never exceeds the exact quotient's ceiling: scaling a
/// value by `s / ts` with `s <= ts` cannot grow it.
pub proof fn lemma_scale_le(r: int, s: int, ts: int)
    by (nonlinear_arith)
    requires
        ts > 0,
        0 <= s <= ts,
        r >= 0,
    ensures
        r * s / ts <= r,
{
}

/// Scaling by a strictly smaller share count strictly shrinks a positive
/// value.
pub proof fn lemma_scale_lt(r: int, s: int, ts: int)
    by (nonlinear_arith)
    requires
        ts > 0,
        0 <= s < ts,
        r > 0,
    ensures
        r * s / ts < r,
{
}

/// Scaling by exactly `ts / ts` is the identity.
pub proof fn lemma_scale_all(r: int, ts: int)
    by (nonlinear_arith)
    requires
        ts > 0,
        r >= 0,
    ensures
        r * ts / ts == r,
{
}

/// Splitting `a` into `(a / c) * c + a % c` splits the scaled value:
/// `a * b / c == (a / c) * b + (a % c) * b / c`.
proof fn lemma_muldiv_split(a: int, b: int, c: int)
    requires
        a >= 0,
        b >= 0,
        c > 0,
    ensures
        a * b / c == (a / c) * b + (a % c) * b / c,
        (a % c) * b >= 0,
{
    let q = a / c;
    let t = a % c;
    lemma_fundamental_div_mod(a, c);
    assert(a * b == c * (q * b) + t * b) by (nonlinear_arith)
        requires
            a == c * q + t,
    ;
    assert(t * b >= 0) by (nonlinear_arith)
        requires
            t >= 0,
            b >= 0,
    ;
    assert(q * b >= 0) by (nonlinear_arith)
        requires
            q >= 0,
            b >= 0,
    ;
    lemma_fundamental_div_mod(t * b, c);
    vstd::arithmetic::div_mod::lemma_mod_pos_bound(t * b, c);
    assert(a * b == (q * b + t * b / c) * c + (t * b) % c) by (nonlinear_arith)
        requires
            a * b == c * (q * b) + t * b,
            t * b == c * ((t * b) / c) + (t * b) % c,
    ;
    lemma_fundamental_div_mod_converse(a * b, c, q * b + t * b / c, (t * b) % c);
}

/// `floor(t * b / c)` for `t < c`, by binary long division: the product
/// is never formed, so it cannot overflow, and the quotient is at most
/// `b`.
fn mul_div_small(t: Balance, b: Balance, c: Balance) -> (r: Balance)
    requires
        c > 0,
        t < c,
    ensures
        r == (t as int) * (b as int) / (c as int),
{
    let mut q: u128 = 0;
    let mut acc: u128 = 0;
    let mut qi: u128 = 0;
    let mut ti: u128 = t;
    let mut bb: u128 = b;
    let ghost mut p: int = 1;
    let ghost mut bp: int = 0;
    while bb != 0
        invariant
            c > 0,
            t < c,
            p >= 1,
            bp >= 0,
            b == bp + bb * p,
            acc < c,
            ti < c,
            q * c + acc == t * bp,
            qi * c + ti == t * p,
        decreases bb,
    {
        let ghost bb0 = bb as int;
        let ghost bp0 = bp;
        let d = bb % 2;
        bb = bb / 2;
        proof {
            bp = bp0 + if d == 1 { p } else { 0int };
            assert(b == bp + bb * (2 * p)) by (nonlinear_arith)
                requires
                    b == bp0 + bb0 * p,
                    bb0 == 2 * bb + d,
                    d == 0 || d == 1,
                    bp == bp0 + if d == 1 { p } else { 0int },
            ;
        }
        if d == 1 {
            let ghost q0 = q as int;
            let ghost acc0 = acc as int;
            proof {
                assert((q0 + qi) * c + (acc0 + ti) == t * bp) by (nonlinear_arith)
                    requires
                        q0 * c + acc0 == t * bp0,
                        qi * c + ti == t * p,
                        bp == bp0 + p,
                ;
                assert(bp <= b) by (nonlinear_arith)
                    requires
                        b == bp + bb * (2 * p),
                        bb >= 0,
                        p >= 1,
                        bp >= 0,
                ;
                assert(q0 + qi < b) by (nonlinear_arith)
                    requires
                        (q0 + qi) * c + (acc0 + ti) == t * bp,
                        0 <= t < c,
                        0 < bp <= b,
                        acc0 >= 0,
                        ti >= 0,
                        q0 >= 0,
                        qi >= 0,
                ;
            }
            if acc >= c - ti {
                acc = acc - (c - ti);
                q = q + qi + 1;
                proof {
                    assert(q * c + acc == t * bp) by (nonlinear_arith)
                        requires
                            (q0 + qi) * c + (acc0 + ti) == t * bp,
                            q == q0 + qi + 1,
                            acc == acc0 + ti - c,
                    ;
                }
            } else {
                acc = acc + ti;
                q = q + qi;
                proof {
                    assert(q * c + acc == t * bp) by (nonlinear_arith)
                        requires
                            (q0 + qi) * c + (acc0 + ti) == t * bp,
                            q == q0 + qi,
                            acc == acc0 + ti,
                    ;
                }
            }
        }
        if bb != 0 {
            let ghost qi0 = qi as int;
            let ghost ti0 = ti as int;
            proof {
                assert(qi < p) by (nonlinear_arith)
                    requires
                        qi * c + ti == t * p,
                        0 <= t < c,
                        ti >= 0,
                        p >= 1,
                        qi >= 0,
                        c > 0,
                ;
                assert(2 * p <= b) by (nonlinear_arith)
                    requires
                        b == bp + bb * (2 * p),
                        bb >= 1,
                        p >= 1,
                        bp >= 0,
                ;
            }
            if ti >= c - ti {
                ti = ti - (c - ti);
                qi = 2 * qi + 1;
                proof {
                    assert(qi * c + ti == t * (2 * p)) by (nonlinear_arith)
                        requires
                            qi0 * c + ti0 == t * p,
                            qi == 2 * qi0 + 1,
                            ti == 2 * ti0 - c,
                    ;
                }
            } else {
                ti = ti + ti;
                qi = 2 * qi;
                proof {
                    assert(qi * c + ti == t * (2 * p)) by (nonlinear_arith)
                        requires
                            qi0 * c + ti0 == t * p,
                            qi == 2 * qi0,
                            ti == 2 * ti0,
                    ;
                }
            }
            proof {
                p = 2 * p;
            }
        } else {
            proof {
                assert(bb * (2 * p) == 0 && bb * p == 0) by (nonlinear_arith)
                    requires
                        bb == 0,
                ;
            }
        }
    }
    proof {
        assert(t * b >= 0) by (nonlinear_arith)
            requires
                t >= 0,
                b >= 0,
        ;
        lemma_fundamental_div_mod_converse(t * b, c as int, q as int, acc as int);
    }
    q
}

/// `floor(a * b / c)` with the product taken at full width, so that
/// large reserves cannot overflow an intermediate product; `None`
/// exactly when the quotient itself does not fit in a `Balance`.
pub fn mul_div(a: Balance, b: Balance, c: Balance) -> (r: Option<Balance>)
    requires
        c > 0,
    ensures
        match r {
            Some(v) => v == (a as int) * (b as int) / (c as int),
            None => (a as int) * (b as int) / (c as int) > u128::MAX,
        },
{
    let q0 = a / c;
    let t = a % c;
    proof {
        lemma_muldiv_split(a as int, b as int, c as int);
    }
    let frac = mul_div_small(t, b, c);
    match q0.checked_mul(b) {
        None => {
            proof {
                assert((a as int % c as int) * b / (c as int) >= 0) by (nonlinear_arith)
                    requires
                        (a as int % c as int) * b >= 0,
                        c > 0,
                ;
            }
            None
        }
        Some(base) => base.checked_add(frac),
    }
}

/// Once the low leg must be scaled down, the scaled amount fits under
/// the caller's low bound.
pub proof fn lemma_scaled_low_fits(rl: int, rh: int, ml: int, mh: int)
    requires
        rl > 0,
        rh > 0,
        ml > 0,
        mh >= 0,
        ml * rh / rl > mh,
    ensures
        mh * rl / rh < ml,
{
    let q1 = ml * rh / rl;
    assert(q1 * rl <= ml * rh) by (nonlinear_arith)
        requires
            rl > 0,
            ml >= 0,
            rh >= 0,
            q1 == ml * rh / rl,
    ;
    assert((mh + 1) * rl <= q1 * rl) by (nonlinear_arith)
        requires
            rl > 0,
            mh + 1 <= q1,
    ;
    assert(mh * rl < ml * rh) by (nonlinear_arith)
        requires
            (mh + 1) * rl <= ml * rh,
            rl > 0,
            mh >= 0,
    ;
    assert(mh * rl / rh < ml) by (nonlinear_arith)
        requires
            rh > 0,
            mh * rl < ml * rh,
            mh * rl >= 0,
    ;
}

/// Computes the deposit for a non-empty pool, exactly as `grow_outcome`
/// describes it.
pub fn grow_amounts(rl: Balance, rh: Balance, ts: Balance, max_low: Balance, max_high: Balance)
    -> (r: Result<(Balance, Balance, Balance), DexError>)
    requires
        rl > 0,
        rh > 0,
        ts > 0,
        max_low > 0,
        max_high > 0,
    ensures
        match r {
            Ok(v) => grow_outcome(rl as int, rh as int, ts as int, max_low as int, max_high as int)
                == Some((v.0 as int, v.1 as int, v.2 as int)),
            Err(e) => {
                &&& grow_outcome(rl as int, rh as int, ts as int, max_low as int, max_high as int)
                    is None
                &&& e == DexError::InvalidLiquidityIncrement
            },
        },
{
    match mul_div(max_low, rh, rl) {
        Some(scaled_high) => {
            if scaled_high <= max_high {
                return grow_finish_amounts(rl, rh, ts, max_low, scaled_high);
            }
        }
        None => {}
    }
    proof {
        lemma_scaled_low_fits(rl as int, rh as int, max_low as int, max_high as int);
    }
    match mul_div(max_high, rl, rh) {
        Some(scaled_low) => grow_finish_amounts(rl, rh, ts, scaled_low, max_high),
        // The scaled low leg is under `max_low`, so this arm cannot be
        // reached.
        None => Err(DexError::InvalidLiquidityIncrement),
    }
}

/// Mints shares for fixed deposit amounts, exactly as `grow_finish`
/// describes it.
fn grow_finish_amounts(rl: Balance, rh: Balance, ts: Balance, al: Balance, ah: Balance)
    -> (r: Result<(Balance, Balance, Balance), DexError>)
    requires
        rl > 0,
        ts > 0,
    ensures
        match r {
            Ok(v) => grow_finish(rl as int, rh as int, ts as int, al as int, ah as int)
                == Some((v.0 as int, v.1 as int, v.2 as int)),
            Err(e) => {
                &&& grow_finish(rl as int, rh as int, ts as int, al as int, ah as int) is None
                &&& e == DexError::InvalidLiquidityIncrement
            },
        },
{
    if al == 0 || ah == 0 {
        return Err(DexError::InvalidLiquidityIncrement);
    }
    match mul_div(ts, al, rl) {
        // A share count beyond `Balance` cannot join `total_shares`.
        None => Err(DexError::InvalidLiquidityIncrement),
        Some(minted) => {
            if minted == 0 {
                Err(DexError::InvalidLiquidityIncrement)
            } else if rl.checked_add(al).is_none() || rh.checked_add(ah).is_none()
                || ts.checked_add(minted).is_none() {
                Err(DexError::InvalidLiquidityIncrement)
            } else {
                Ok((al, ah, minted))
            }
        }
    }
}

/// Computes the redemption amounts for `s` shares, exactly as
/// `withdraw_outcome` describes it.
pub fn redeem_amounts(rl: Balance, rh: Balance, ts: Balance, s: Balance)
    -> (r: Result<(Balance, Balance), DexError>)
    requires
        ts > 0,
        0 < s <= ts,
    ensures
        match r {
            Ok(v) => withdraw_outcome(rl as int, rh as int, ts as int, s as int)
                == Some((v.0 as int, v.1 as int)),
            Err(e) => {
                &&& withdraw_outcome(rl as int, rh as int, ts as int, s as int) is None
                &&& e == DexError::InvalidLiquidityIncrement
            },
        },
{
    proof {
        lemma_scale_le(rl as int, s as int, ts as int);
        lemma_scale_le(rh as int, s as int, ts as int);
    }
    let al = match mul_div(rl, s, ts) {
        Some(v) => v,
        // The entitlement never exceeds the reserve, so it always fits.
        None => {
            return Err(DexError::InvalidLiquidityIncrement);
        }
    };
    let ah = match mul_div(rh, s, ts) {
        Some(v) => v,
        None => {
            return Err(DexError::InvalidLiquidityIncrement);
        }
    };
    if al == 0 && ah == 0 {
        Err(DexError::InvalidLiquidityIncrement)
    } else {
        Ok((al, ah))
    }
}

} // verus!
