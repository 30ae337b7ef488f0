//! The reward-accrual engine: rolling a pool forward and crediting users.
//!
//! A pool distributes `emission_rate` reward units per block, either shared
//! proportionally across all staked units up to a hard cap (`RateCapped`) or
//! paid per staked unit (`FixedRate`), through one shared accumulated
//! reward-per-share figure scaled by ten to the eighteenth.

use vstd::prelude::*;

use crate::decimal::Decimal;
use crate::decimal::is_int_string;
use crate::decimal::lemma_mul_cmp;
use crate::decimal::lemma_pow_nat_ten;
use crate::decimal::str_val;
use crate::digits::lemma_pow10_adds;
use crate::digits::lemma_pow10_pos;
use crate::digits::pow10;
use crate::errors::EngineError;
use vstd::arithmetic::div_mod::lemma_div_denominator;
use vstd::arithmetic::div_mod::lemma_fundamental_div_mod;
use vstd::arithmetic::div_mod::lemma_fundamental_div_mod_converse;
use vstd::arithmetic::div_mod::lemma_hoist_over_denominator;
use vstd::arithmetic::div_mod::lemma_multiply_divide_le;

verus! {

/// How a pool emits reward.
#[derive(Debug, Clone, Copy, PartialEq, Eq, Structural)]
pub enum PoolType {
    /// A fixed total emission per block, split proportionally to stake.
    RateCapped,
    /// A fixed emission per staked unit per block.
    FixedRate,
    /// An unrecognized pool type; every operation rejects it.
    Unknown,
}

/// A pool's ledger record.
#[derive(Debug, Clone)]
pub struct Pool {
    pub pool_type: PoolType,
    /// Reward units minted per block (scaled by the emission-rate decimals).
    pub emission_rate: u128,
    /// Sum of all users' staked amounts.
    pub total_staked: u128,
    /// Cumulative reward minted so far; never exceeds `max_mintable`.
    pub minted_total: u128,
    /// Hard cap on cumulative minted reward.
    pub max_mintable: u128,
    /// Cumulative reward per staked unit since inception, scaled by ten to
    /// the eighteenth, kept as a decimal string.
    pub acc_reward_per_share: String,
    /// The highest block at which accrual was applied.
    pub last_update_block: u64,
}

/// A user's ledger record for one pool.
#[derive(Debug, Clone)]
pub struct User {
    /// The id of the pool the user stakes in.
    pub pid: String,
    /// The user's current stake.
    pub staked: u128,
    /// Cumulative unclaimed reward credited to the user.
    pub reward: u128,
    /// The part of `staked * acc_reward_per_share` already accounted for.
    pub reward_debt: u128,
    /// The block at which `reward_debt` was last rebased.
    pub latest_updated_block: u64,
}

/// The per-share multiplier: accumulated reward per share is kept scaled up
/// by this factor.
pub open spec fn per_share_mult() -> nat {
    pow10(18)
}

impl Pool {
    /// The record is valid: the accumulated-reward-per-share string is an
    /// integer decimal string, as the engine itself writes it.
    pub open spec fn wf(self) -> bool {
        is_int_string(self.acc_reward_per_share@)
    }

    /// The accumulated reward per share as a number.
    pub open spec fn acc(self) -> nat {
        str_val(self.acc_reward_per_share@)
    }
}

/// The pool accrues new reward at `block`: time has passed, someone stakes,
/// and the cap is not yet reached.
pub open spec fn accruing(p: Pool, block: u64) -> bool {
    &&& block > p.last_update_block
    &&& p.total_staked > 0
    &&& p.minted_total < p.max_mintable
}

/// Emission accumulated over the elapsed blocks, before any cap.
pub open spec fn raw_reward(p: Pool, block: u64) -> nat {
    (p.emission_rate as nat) * ((block - p.last_update_block) as nat)
}

/// The reward a rate-capped pool actually mints: the raw reward clamped so
/// the cap is reached exactly, never exceeded.
pub open spec fn capped_reward(p: Pool, block: u64) -> nat {
    if p.minted_total + raw_reward(p, block) > p.max_mintable {
        (p.max_mintable - p.minted_total) as nat
    } else {
        raw_reward(p, block)
    }
}

/// A fixed-rate pool's stake-weighted cost estimate would overshoot the cap.
pub open spec fn fixed_clamped(p: Pool, block: u64, d: u8) -> bool {
    (p.total_staked as nat) * raw_reward(p, block) > ((p.max_mintable - p.minted_total) as nat) * pow10(d as nat)
}

/// `minted_total` after rolling the pool forward to `block`.
pub open spec fn minted_after(p: Pool, block: u64, d: u8) -> nat {
    if !accruing(p, block) {
        p.minted_total as nat
    } else if p.pool_type == PoolType::RateCapped {
        p.minted_total as nat + capped_reward(p, block)
    } else if fixed_clamped(p, block, d) {
        p.max_mintable as nat
    } else {
        p.minted_total as nat + ((p.total_staked as nat) * raw_reward(p, block)) / pow10(d as nat)
    }
}

/// The accumulated reward per share after rolling the pool forward to
/// `block`: up by reward-per-stake-unit (rate-capped) or by the per-unit
/// rate itself (fixed-rate), always times the per-share multiplier.
pub open spec fn acc_after(p: Pool, block: u64, d: u8) -> nat {
    if !accruing(p, block) {
        p.acc()
    } else if p.pool_type == PoolType::RateCapped {
        p.acc() + (capped_reward(p, block) * per_share_mult()) / (p.total_staked as nat)
    } else if fixed_clamped(p, block, d) {
        p.acc() + (((p.max_mintable - p.minted_total) as nat) * per_share_mult() * pow10(
            d as nat,
        )) / (p.total_staked as nat)
    } else {
        p.acc() + raw_reward(p, block) * per_share_mult()
    }
}

/// What a user's whole stake has earned per the pool's accumulated figure:
/// `staked * acc` scaled back down, per the pool type's convention.
pub open spec fn entitlement(t: PoolType, staked: u128, acc: nat, d: u8) -> nat {
    if t == PoolType::RateCapped {
        ((staked as nat) * acc) / per_share_mult()
    } else {
        ((staked as nat) * acc) / (pow10(d as nat) * per_share_mult())
    }
}

/// The scale at which the entitlement is computed before truncation.
pub open spec fn ent_scale(t: PoolType, d: u8) -> nat {
    if t == PoolType::RateCapped {
        18
    } else {
        d as nat + 18
    }
}

/// What `str::to_lowercase` returns: a function of the characters alone.
pub uninterp spec fn lower_of(s: Seq<char>) -> Seq<char>;

/// Relies on str::to_lowercase: the result depends only on the characters
/// of the input.
#[verifier::external_body]
fn to_lowercase(s: &str) -> (r: String)
    ensures
        r@ == lower_of(s@),
{
    s.to_lowercase()
}

/// Cancel a common positive factor under integer division.
proof fn lemma_div_mul_cancel(x: nat, y: nat, c: nat)
    requires
        y >= 1,
        c >= 1,
    ensures
        (x * c) / (y * c) == x / y,
{
    let q = x / y;
    let r = x % y;
    lemma_fundamental_div_mod(x as int, y as int);
    assert(x == y * q + r);
    assert(x * c == q * (y * c) + r * c) by (nonlinear_arith)
        requires
            x == y * q + r,
    ;
    assert(r * c < y * c) by (nonlinear_arith)
        requires
            r < y,
            c >= 1,
    ;
    assert(y * c >= 1) by (nonlinear_arith)
        requires
            y >= 1,
            c >= 1,
    ;
    lemma_fundamental_div_mod_converse(
        (x * c) as int,
        (y * c) as int,
        q as int,
        (r * c) as int,
    );
}

/// Integer division against a strict bound: `x / c < k` exactly when
/// `x < k * c`.
proof fn lemma_div_lt_iff(x: nat, c: nat, k: nat)
    requires
        c >= 1,
    ensures
        (x / c < k) <==> (x < k * c),
{
    lemma_fundamental_div_mod(x as int, c as int);
    if x / c < k {
        assert(x < k * c) by (nonlinear_arith)
            requires
                x == c * (x / c) + x % c,
                x % c < c,
                x / c < k,
                c >= 1,
        ;
    }
    if x < k * c {
        assert(x / c < k) by (nonlinear_arith)
            requires
                x == c * (x / c) + x % c,
                0 <= x % c,
                x < k * c,
                c >= 1,
                x / c >= 0,
        ;
    }
}

/// Ten to the power of a small count, as a decimal.
pub fn get_num_by_decimal(decimal: u8) -> (r: Result<Decimal, EngineError>)
    ensures
        match r {
            Ok(v) => v.wf() && v.m() == pow10(decimal as nat) && v.s() == 0,
            Err(_) => false,
        },
{
    let ten = Decimal::from_u128(10);
    proof {
        lemma_pow_nat_ten(decimal as nat);
    }
    ten.checked_powu(decimal as u64)
}

/// The per-share multiplier as a decimal.
pub fn get_per_share_multiplier() -> (r: Decimal)
    ensures
        r.wf(),
        r.m() == per_share_mult(),
        r.s() == 0,
{
    match get_num_by_decimal(18) {
        Ok(v) => v,
        Err(_) => Decimal::zero(),
    }
}

/// The user's entitlement, as an exact decimal at the type's scale.
fn entitlement_dec(t: PoolType, staked_d: &Decimal, acc_d: &Decimal, d: u8) -> (r: Decimal)
    requires
        t != PoolType::Unknown,
        staked_d.wf(),
        acc_d.wf(),
        staked_d.s() == 0,
        acc_d.s() == 0,
    ensures
        r.wf(),
        r.m() == staked_d.m() * acc_d.m(),
        r.s() == ent_scale(t, d),
{
    let p1 = match staked_d.checked_mul(acc_d) {
        Ok(v) => v,
        Err(_) => Decimal::zero(),
    };
    if t == PoolType::RateCapped {
        match p1.div_pow10(18) {
            Ok(v) => v,
            Err(_) => Decimal::zero(),
        }
    } else {
        let p2 = match p1.div_pow10(d as usize) {
            Ok(v) => v,
            Err(_) => Decimal::zero(),
        };
        match p2.div_pow10(18) {
            Ok(v) => v,
            Err(_) => Decimal::zero(),
        }
    }
}

/// Entitlement truncated to an integer is the documented formula.
proof fn lemma_entitlement_floor(t: PoolType, staked: u128, acc: nat, d: u8)
    requires
        t != PoolType::Unknown,
    ensures
        ((staked as nat) * acc) / pow10(ent_scale(t, d)) == entitlement(t, staked, acc, d),
{
    if t != PoolType::RateCapped {
        lemma_pow10_adds(d as nat, 18);
    }
}

/// Scaling by ten to the zeroth changes nothing.
proof fn lemma_scale_zero(x: nat)
    ensures
        pow10(0) == 1,
        x * pow10(0) == x,
        x / pow10(0) == x,
{
    assert(pow10(0) == 1);
    vstd::arithmetic::div_mod::lemma_div_basics(x as int);
}

/// The quotient of `(x * p) / y` by `p` drops the guard factor exactly.
proof fn lemma_guard_cancel(x: nat, y: nat, p: nat)
    requires
        y >= 1,
        p >= 1,
    ensures
        ((x * p) / y) / p == x / y,
{
    lemma_div_denominator((x * p) as int, y as int, p as int);
    lemma_div_mul_cancel(x, y, p);
}

/// Floor arithmetic for a pending reward: subtracting an integer debt and
/// adding an integer reward commute with truncation at scale `p`.
proof fn lemma_pending_parts(x: nat, debt: nat, reward: nat, p: nat)
    requires
        p >= 1,
        x >= debt * p,
    ensures
        x / p >= debt,
        ((x - debt * p) as nat) / p == x / p - debt,
        (((x - debt * p) + reward * p) as nat) / p == reward + x / p - debt,
{
    let a = (x - debt * p) as nat;
    lemma_hoist_over_denominator(a as int, debt as int, p);
    assert(a / p + debt == x / p);
    lemma_hoist_over_denominator(a as int, reward as int, p);
}

/// Roll a pool's accrual state forward to `block`. If no time has passed,
/// nothing is staked, or the cap is already reached, only
/// `last_update_block` is advanced — clamped forward, never backward: a
/// stale or replayed block mints nothing and leaves the record as it is.
/// Otherwise the elapsed emission is minted, clamped so `minted_total`
/// never exceeds `max_mintable`, and folded into the accumulated reward per
/// share.
#[verifier::rlimit(100)]
pub fn update_pool(pool: &mut Pool, block: u64, stake_decimals: u8) -> (r: Result<
    (),
    EngineError,
>)
    requires
        old(pool).wf(),
    ensures
        final(pool).wf(),
        final(pool).pool_type == old(pool).pool_type,
        final(pool).emission_rate == old(pool).emission_rate,
        final(pool).total_staked == old(pool).total_staked,
        final(pool).max_mintable == old(pool).max_mintable,
        old(pool).pool_type == PoolType::Unknown ==> r == Err::<(), EngineError>(
            EngineError::UnknownPoolType,
        ) && *final(pool) == *old(pool),
        old(pool).pool_type != PoolType::Unknown ==> {
            &&& r == Ok::<(), EngineError>(())
            &&& final(pool).minted_total as nat == minted_after(*old(pool), block, stake_decimals)
            &&& final(pool).acc() == acc_after(*old(pool), block, stake_decimals)
            &&& final(pool).last_update_block == (if block >= old(pool).last_update_block {
                block
            } else {
                old(pool).last_update_block
            })
        },
        old(pool).pool_type != PoolType::Unknown && !accruing(*old(pool), block)
            ==> final(pool).acc_reward_per_share == old(pool).acc_reward_per_share,
        old(pool).minted_total <= old(pool).max_mintable ==> final(pool).minted_total <= final(pool).max_mintable,
        final(pool).acc() >= old(pool).acc(),
        final(pool).last_update_block >= old(pool).last_update_block,
{
    if pool.pool_type == PoolType::Unknown {
        return Err(EngineError::UnknownPoolType);
    }
    let pool_minted = Decimal::from_u128(pool.minted_total);
    let pool_dmax = Decimal::from_u128(pool.max_mintable);
    let erate = Decimal::from_u128(pool.emission_rate);
    let pool_stake = Decimal::from_u128(pool.total_staked);
    let acc_reward_per_share = match Decimal::parse(pool.acc_reward_per_share.as_str()) {
        Ok(v) => v,
        Err(e) => {
            return Err(e);
        },
    };
    if block <= pool.last_update_block || pool.total_staked == 0 || pool.minted_total
        >= pool.max_mintable {
        // the height only ever moves forward: a stale block is ignored
        if block > pool.last_update_block {
            pool.last_update_block = block;
        }
        return Ok(());
    }
    let ghost raw = raw_reward(*old(pool), block);
    let ghost mnt = old(pool).minted_total as nat;
    let ghost dmx = old(pool).max_mintable as nat;
    let ghost stk = old(pool).total_staked as nat;
    let ghost acc0 = old(pool).acc();
    let ghost bigp = per_share_mult();
    proof {
        assert(accruing(*old(pool), block));
        lemma_pow10_pos(18);
    }
    let elapsed = block - pool.last_update_block;
    let nums = Decimal::from_u128(elapsed as u128);
    let mut rewards = match erate.checked_mul(&nums) {
        Ok(v) => v,
        Err(e) => {
            return Err(e);
        },
    };
    let mult = get_per_share_multiplier();
    proof {
        lemma_scale_zero(rewards.m());
        assert(rewards.m() == raw);
    }
    if pool.pool_type == PoolType::RateCapped {
        let sum = match pool_minted.checked_add(&rewards) {
            Ok(v) => v,
            Err(e) => {
                return Err(e);
            },
        };
        proof {
            lemma_scale_zero(mnt);
            lemma_scale_zero(raw);
            lemma_scale_zero(dmx);
            lemma_scale_zero(sum.m());
            assert(sum.m() == mnt + raw);
        }
        if sum.gt(&pool_dmax) {
            rewards = match pool_dmax.checked_sub(&pool_minted) {
                Ok(v) => v,
                Err(e) => {
                    return Err(e);
                },
            };
        }
        proof {
            assert(rewards.m() == capped_reward(*old(pool), block));
            assert(rewards.s() == 0);
        }
        let m2 = match pool_minted.checked_add(&rewards) {
            Ok(v) => v,
            Err(e) => {
                return Err(e);
            },
        };
        proof {
            lemma_scale_zero(rewards.m());
            lemma_scale_zero(m2.m());
            assert(m2.m() == mnt + capped_reward(*old(pool), block));
        }
        let mt = match m2.truncate_to_u128() {
            Ok(v) => v,
            Err(e) => {
                return Err(e);
            },
        };
        pool.minted_total = mt;
    } else {
        let tend = match get_num_by_decimal(stake_decimals) {
            Ok(v) => v,
            Err(e) => {
                return Err(e);
            },
        };
        let ghost tpow = pow10(stake_decimals as nat);
        let e1 = match pool_stake.checked_mul(&rewards) {
            Ok(v) => v,
            Err(e) => {
                return Err(e);
            },
        };
        let e2 = match e1.checked_mul(&mult) {
            Ok(v) => v,
            Err(e) => {
                return Err(e);
            },
        };
        let e3 = match e2.div_pow10(stake_decimals as usize) {
            Ok(v) => v,
            Err(e) => {
                return Err(e);
            },
        };
        let mut estimate = match e3.div_pow10(18) {
            Ok(v) => v,
            Err(e) => {
                return Err(e);
            },
        };
        proof {
            assert(estimate.m() == stk * raw * bigp);
            assert(estimate.s() == stake_decimals as nat + 18);
        }
        let sum = match pool_minted.checked_add(&estimate) {
            Ok(v) => v,
            Err(e) => {
                return Err(e);
            },
        };
        let clamped = sum.gt(&pool_dmax);
        proof {
            let dp18 = pow10(stake_decimals as nat + 18);
            lemma_pow10_adds(stake_decimals as nat, 18);
            lemma_scale_zero(estimate.m());
            lemma_scale_zero(sum.m());
            assert(sum.m() == mnt * dp18 + stk * raw * bigp);
            assert(((dmx - mnt) as nat) * dp18 == (((dmx - mnt) as nat) * tpow) * bigp)
                by (nonlinear_arith)
                requires
                    dp18 == tpow * bigp,
            ;
            lemma_mul_cmp(stk * raw, ((dmx - mnt) as nat) * tpow, bigp);
            assert((stk * raw) * bigp == stk * raw * bigp);
            // clamped <==> the estimate would overshoot the cap
            assert(clamped <==> sum.m() > dmx * dp18);
            assert(((dmx - mnt) as nat) * dp18 == dmx * dp18 - mnt * dp18) by (nonlinear_arith)
                requires
                    dmx >= mnt,
            ;
            assert(sum.m() > dmx * dp18 <==> stk * raw * bigp > ((dmx - mnt) as nat) * dp18);
            assert(clamped == fixed_clamped(*old(pool), block, stake_decimals));
        }
        if clamped {
            estimate = match pool_dmax.checked_sub(&pool_minted) {
                Ok(v) => v,
                Err(e) => {
                    return Err(e);
                },
            };
            proof {
                lemma_scale_zero(dmx);
                lemma_scale_zero(mnt);
                assert(estimate.m() == (dmx - mnt) as nat);
                assert(estimate.s() == 0);
            }
            let r1 = match estimate.checked_mul(&mult) {
                Ok(v) => v,
                Err(e) => {
                    return Err(e);
                },
            };
            let r2 = match r1.checked_mul(&tend) {
                Ok(v) => v,
                Err(e) => {
                    return Err(e);
                },
            };
            let r3 = match r2.checked_div(&pool_stake) {
                Ok(v) => v,
                Err(e) => {
                    return Err(e);
                },
            };
            rewards = match r3.div_pow10(18) {
                Ok(v) => v,
                Err(e) => {
                    return Err(e);
                },
            };
            proof {
                assert(rewards.m() == (((dmx - mnt) as nat) * bigp * tpow * bigp) / stk);
                assert(rewards.s() == 36);
            }
        }
        let m2 = match pool_minted.checked_add(&estimate) {
            Ok(v) => v,
            Err(e) => {
                return Err(e);
            },
        };
        proof {
            if clamped {
                lemma_scale_zero(estimate.m());
                lemma_scale_zero(m2.m());
                assert(m2.m() == dmx);
            } else {
                let dp18 = pow10(stake_decimals as nat + 18);
                lemma_pow10_adds(stake_decimals as nat, 18);
                lemma_pow10_pos(stake_decimals as nat);
                lemma_scale_zero(estimate.m());
                assert(m2.m() == mnt * dp18 + stk * raw * bigp);
                assert(m2.s() == stake_decimals as nat + 18);
                lemma_pow10_pos(stake_decimals as nat + 18);
                lemma_hoist_over_denominator(
                    (stk * raw * bigp) as int,
                    mnt as int,
                    dp18,
                );
                assert(m2.m() / dp18 == mnt + (stk * raw * bigp) / dp18);
                lemma_div_mul_cancel(stk * raw, tpow, bigp);
                assert((stk * raw) * bigp == stk * raw * bigp);
                assert(tpow * bigp == dp18);
                assert((stk * raw * bigp) / dp18 == (stk * raw) / tpow);
                // the unclamped estimate stays within the remaining budget
                lemma_multiply_divide_le(
                    (stk * raw) as int,
                    tpow as int,
                    ((dmx - mnt) as nat) as int,
                );
                assert(tpow * ((dmx - mnt) as nat) == ((dmx - mnt) as nat) * tpow)
                    by (nonlinear_arith);
                assert((stk * raw) / tpow <= (dmx - mnt) as nat);
            }
        }
        let mt = match m2.truncate_to_u128() {
            Ok(v) => v,
            Err(e) => {
                return Err(e);
            },
        };
        pool.minted_total = mt;
    }
    pool.last_update_block = block;
    let a1 = match rewards.checked_mul(&mult) {
        Ok(v) => v,
        Err(e) => {
            return Err(e);
        },
    };
    if pool.pool_type == PoolType::RateCapped {
        let a2 = match a1.checked_div(&pool_stake) {
            Ok(v) => v,
            Err(e) => {
                return Err(e);
            },
        };
        let a3 = match a2.checked_add(&acc_reward_per_share) {
            Ok(v) => v,
            Err(e) => {
                return Err(e);
            },
        };
        proof {
            let eff = capped_reward(*old(pool), block);
            lemma_scale_zero(a2.m());
            assert(a2.m() == ((eff * bigp) * bigp) / stk);
            assert(a3.m() == ((eff * bigp) * bigp) / stk + acc0 * bigp);
            assert(a3.s() == 18);
            lemma_hoist_over_denominator(
                (((eff * bigp) * bigp) / stk) as int,
                acc0 as int,
                bigp,
            );
            lemma_guard_cancel(eff * bigp, stk, bigp);
            assert(a3.m() / bigp == acc0 + (eff * bigp) / stk);
        }
        pool.acc_reward_per_share = a3.truncate_to_str();
    } else {
        let a2 = match a1.checked_add(&acc_reward_per_share) {
            Ok(v) => v,
            Err(e) => {
                return Err(e);
            },
        };
        proof {
            let ghost tpow = pow10(stake_decimals as nat);
            if fixed_clamped(*old(pool), block, stake_decimals) {
                let x2 = ((dmx - mnt) as nat) * bigp * tpow;
                let q2 = (x2 * bigp) / stk;
                assert(rewards.m() == q2);
                assert(a1.m() == q2 * bigp);
                assert(a1.s() == 36);
                lemma_scale_zero(a1.m());
                assert(a2.m() == q2 * bigp + acc0 * pow10(36));
                assert(a2.s() == 36);
                lemma_pow10_adds(18, 18);
                lemma_pow10_pos(36);
                lemma_hoist_over_denominator((q2 * bigp) as int, acc0 as int, pow10(36));
                assert(a2.m() / pow10(36) == acc0 + (q2 * bigp) / pow10(36));
                lemma_div_mul_cancel(q2, bigp, bigp);
                assert(bigp * bigp == pow10(36));
                assert((q2 * bigp) / pow10(36) == q2 / bigp);
                lemma_guard_cancel(x2, stk, bigp);
                assert(q2 / bigp == x2 / stk);
            } else {
                assert(rewards.m() == raw);
                assert(rewards.s() == 0);
                lemma_scale_zero(a1.m());
                lemma_scale_zero(acc0);
                lemma_scale_zero(a2.m());
                assert(a2.m() == raw * bigp + acc0);
                assert(a2.s() == 0);
            }
        }
        pool.acc_reward_per_share = a2.truncate_to_str();
    }
    Ok(())
}

/// Credit the user with the reward accrued since the last rebase: the
/// entitlement at the pool's current accumulated figure, less the recorded
/// reward debt. The pool itself is not rolled forward; call `update_pool`
/// first. Returns the amount credited by this call alone.
pub fn withdraw_user_reward(user: &mut User, pool: &mut Pool, stake_decimals: u8) -> (r: Result<
    u128,
    EngineError,
>)
    requires
        old(pool).wf(),
    ensures
        *final(pool) == *old(pool),
        final(user).pid == old(user).pid,
        final(user).staked == old(user).staked,
        final(user).reward_debt == old(user).reward_debt,
        final(user).latest_updated_block == old(user).latest_updated_block,
        final(user).reward >= old(user).reward,
        ({
            let ent = entitlement(
                old(pool).pool_type,
                old(user).staked,
                old(pool).acc(),
                stake_decimals,
            );
            match r {
                Ok(v) => {
                    &&& old(pool).pool_type != PoolType::Unknown
                    &&& old(user).staked > 0
                    &&& ent >= old(user).reward_debt
                    &&& old(user).reward + ent - old(user).reward_debt <= u128::MAX
                    &&& v as nat == ent - old(user).reward_debt
                    &&& final(user).reward as nat == old(user).reward + ent - old(
                        user,
                    ).reward_debt
                },
                Err(e) => {
                    &&& *final(user) == *old(user)
                    &&& match e {
                        EngineError::UnknownPoolType => old(pool).pool_type == PoolType::Unknown,
                        EngineError::NoStaked(p) => old(pool).pool_type != PoolType::Unknown && old(
                            user,
                        ).staked == 0 && p@ == lower_of(old(user).pid@),
                        EngineError::Underflow => old(pool).pool_type != PoolType::Unknown && old(
                            user,
                        ).staked > 0 && ent < old(user).reward_debt,
                        EngineError::Overflow => old(pool).pool_type != PoolType::Unknown && old(
                            user,
                        ).staked > 0 && ent >= old(user).reward_debt && old(user).reward + ent
                            - old(user).reward_debt > u128::MAX,
                        _ => false,
                    }
                },
            }
        }),
{
    if pool.pool_type == PoolType::Unknown {
        return Err(EngineError::UnknownPoolType);
    }
    let user_staked = Decimal::from_u128(user.staked);
    let acc_reward_per_share = match Decimal::parse(pool.acc_reward_per_share.as_str()) {
        Ok(v) => v,
        Err(e) => {
            return Err(e);
        },
    };
    let reward_debt = Decimal::from_u128(user.reward_debt);
    let user_reward = Decimal::from_u128(user.reward);
    if user.staked == 0 {
        let lp = to_lowercase(user.pid.as_str());
        return Err(EngineError::NoStaked(lp));
    }
    let ent = entitlement_dec(pool.pool_type, &user_staked, &acc_reward_per_share, stake_decimals);
    let ghost sc = ent_scale(old(pool).pool_type, stake_decimals);
    let ghost x = (old(user).staked as nat) * old(pool).acc();
    proof {
        lemma_pow10_pos(sc);
        lemma_entitlement_floor(
            old(pool).pool_type,
            old(user).staked,
            old(pool).acc(),
            stake_decimals,
        );
        assert(pow10(0) == 1);
        lemma_div_lt_iff(x, pow10(sc), old(user).reward_debt as nat);
    }
    let pending = match ent.checked_sub(&reward_debt) {
        Ok(v) => v,
        Err(e) => {
            proof {
                assert(ent.m() == x);
                assert(ent.s() == sc);
                assert(crate::decimal::smax(ent, reward_debt) == sc);
                assert(crate::decimal::am(ent, reward_debt) == x * pow10(0));
                assert(x * pow10(0) == x);
                assert(crate::decimal::bm(ent, reward_debt) == (old(user).reward_debt as nat)
                    * pow10(sc));
                assert(x < (old(user).reward_debt as nat) * pow10(sc));
                assert(x / pow10(sc) < old(user).reward_debt as nat);
                assert(entitlement(
                    old(pool).pool_type,
                    old(user).staked,
                    old(pool).acc(),
                    stake_decimals,
                ) < old(user).reward_debt as nat);
            }
            return Err(e);
        },
    };
    proof {
        assert(pending.m() == x - (old(user).reward_debt as nat) * pow10(sc));
        lemma_pending_parts(
            x,
            old(user).reward_debt as nat,
            old(user).reward as nat,
            pow10(sc),
        );
    }
    if !pending.is_zero() {
        let credited = match user_reward.checked_add(&pending) {
            Ok(v) => v,
            Err(e) => {
                return Err(e);
            },
        };
        let newr = match credited.truncate_to_u128() {
            Ok(v) => v,
            Err(e) => {
                return Err(e);
            },
        };
        user.reward = newr;
    }
    let out = match pending.truncate_to_u128() {
        Ok(v) => v,
        Err(e) => {
            return Err(e);
        },
    };
    Ok(out)
}

/// Rebase the user's reward debt to the pool's current accumulated figure.
/// Call it after `withdraw_user_reward` and after the caller has applied a
/// stake change to both records, never before.
pub fn update_user_stake(user: &mut User, pool: &Pool, stake_decimals: u8) -> (r: Result<
    (),
    EngineError,
>)
    requires
        pool.wf(),
    ensures
        final(user).pid == old(user).pid,
        final(user).staked == old(user).staked,
        final(user).reward == old(user).reward,
        match r {
            Ok(()) => {
                &&& pool.pool_type != PoolType::Unknown
                &&& entitlement(pool.pool_type, old(user).staked, pool.acc(), stake_decimals)
                    <= u128::MAX
                &&& final(user).reward_debt as nat == entitlement(
                    pool.pool_type,
                    old(user).staked,
                    pool.acc(),
                    stake_decimals,
                )
                &&& final(user).latest_updated_block == pool.last_update_block
            },
            Err(e) => {
                &&& *final(user) == *old(user)
                &&& match e {
                    EngineError::UnknownPoolType => pool.pool_type == PoolType::Unknown,
                    EngineError::Overflow => pool.pool_type != PoolType::Unknown && entitlement(
                        pool.pool_type,
                        old(user).staked,
                        pool.acc(),
                        stake_decimals,
                    ) > u128::MAX,
                    _ => false,
                }
            },
        },
{
    if pool.pool_type == PoolType::Unknown {
        return Err(EngineError::UnknownPoolType);
    }
    let user_staked = Decimal::from_u128(user.staked);
    let acc_reward_per_share = match Decimal::parse(pool.acc_reward_per_share.as_str()) {
        Ok(v) => v,
        Err(e) => {
            return Err(e);
        },
    };
    let ent = entitlement_dec(pool.pool_type, &user_staked, &acc_reward_per_share, stake_decimals);
    proof {
        lemma_pow10_pos(ent_scale(pool.pool_type, stake_decimals));
        lemma_entitlement_floor(pool.pool_type, old(user).staked, pool.acc(), stake_decimals);
    }
    let debt = match ent.truncate_to_u128() {
        Ok(v) => v,
        Err(e) => {
            return Err(e);
        },
    };
    user.reward_debt = debt;
    user.latest_updated_block = pool.last_update_block;
    Ok(())
}

/// Preview the reward a withdrawal would credit at `block`, without
/// committing anything: runs `update_pool` and `withdraw_user_reward` on
/// owned copies and returns only the pending amount.
pub fn query_reward(user: User, pool: Pool, block: u64, stake_decimals: u8) -> (r: Result<
    u128,
    EngineError,
>)
    requires
        pool.wf(),
    ensures
        ({
            let ent = entitlement(
                pool.pool_type,
                user.staked,
                acc_after(pool, block, stake_decimals),
                stake_decimals,
            );
            match r {
                Ok(v) => {
                    &&& pool.pool_type != PoolType::Unknown
                    &&& user.staked > 0
                    &&& ent >= user.reward_debt
                    &&& user.reward + ent - user.reward_debt <= u128::MAX
                    &&& v as nat == ent - user.reward_debt
                },
                Err(e) => match e {
                    EngineError::UnknownPoolType => pool.pool_type == PoolType::Unknown,
                    EngineError::NoStaked(p) => pool.pool_type != PoolType::Unknown && user.staked
                        == 0 && p@ == lower_of(user.pid@),
                    EngineError::Underflow => pool.pool_type != PoolType::Unknown && user.staked
                        > 0 && ent < user.reward_debt,
                    EngineError::Overflow => pool.pool_type != PoolType::Unknown && user.staked > 0
                        && ent >= user.reward_debt && user.reward + ent - user.reward_debt
                        > u128::MAX,
                    _ => false,
                },
            }
        }),
{
    let mut user_temp = user;
    let mut pool_temp = pool;
    match update_pool(&mut pool_temp, block, stake_decimals) {
        Ok(_) => {},
        Err(e) => {
            return Err(e);
        },
    }
    withdraw_user_reward(&mut user_temp, &mut pool_temp, stake_decimals)
}

} // verus!
