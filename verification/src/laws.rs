//! The engine's laws, stated and proved over the same specification
//! functions that the operations' contracts use.

use vstd::prelude::*;

use crate::digits::lemma_pow10_pos;
use crate::digits::pow10;
use crate::engine::Pool;
use crate::engine::PoolType;
use crate::engine::User;
use crate::engine::acc_after;
use crate::engine::accruing;
use crate::engine::capped_reward;
use crate::engine::entitlement;
use crate::engine::fixed_clamped;
use crate::engine::minted_after;
use crate::engine::raw_reward;
use vstd::arithmetic::div_mod::lemma_multiply_divide_le;

verus! {

/// Law: the mint cap is an invariant. If a pool's `minted_total` is within
/// its cap, it still is after `update_pool` rolls it to any block: the
/// clamped emission reaches `max_mintable` exactly, never past it.
pub proof fn lemma_cap_invariant(p: Pool, block: u64, d: u8)
    requires
        p.minted_total <= p.max_mintable,
    ensures
        minted_after(p, block, d) <= p.max_mintable,
{
    if accruing(p, block) && p.pool_type != PoolType::RateCapped && !fixed_clamped(p, block, d) {
        let stk = p.total_staked as nat;
        let raw = raw_reward(p, block);
        let tpow = pow10(d as nat);
        let room = (p.max_mintable - p.minted_total) as nat;
        lemma_pow10_pos(d as nat);
        lemma_multiply_divide_le((stk * raw) as int, tpow as int, room as int);
        assert(tpow * room == room * tpow) by (nonlinear_arith);
    }
}

/// Law: `update_pool` is idempotent in the block height. After a pool has
/// been rolled forward to `block` (so `last_update_block == block`), rolling
/// it to the same block again leaves `minted_total` and the accumulated
/// reward per share unchanged.
pub proof fn lemma_update_pool_idempotent(p: Pool, block: u64, d: u8)
    requires
        p.last_update_block == block,
    ensures
        minted_after(p, block, d) == p.minted_total,
        acc_after(p, block, d) == p.acc(),
{
    assert(!accruing(p, block));
}

/// Law: no double credit. Once `update_user_stake` has rebased the user's
/// reward debt against the pool's current accumulated figure, a further
/// `withdraw_user_reward` with no intervening `update_pool` to a newer block
/// computes a pending reward of zero: it returns zero and leaves the user's
/// reward unchanged.
pub proof fn lemma_no_double_credit(pool: Pool, user: User, d: u8)
    requires
        pool.pool_type != PoolType::Unknown,
        user.reward_debt as nat == entitlement(pool.pool_type, user.staked, pool.acc(), d),
    ensures
        entitlement(pool.pool_type, user.staked, pool.acc(), d) - user.reward_debt == 0,
        user.reward + entitlement(pool.pool_type, user.staked, pool.acc(), d)
            - user.reward_debt == user.reward,
{
}

/// Law: a pool whose cap is reached accrues nothing more, at any later
/// block: neither `minted_total` nor the accumulated reward per share moves.
pub proof fn lemma_cap_stops_accrual(p: Pool, block: u64, d: u8)
    requires
        p.minted_total >= p.max_mintable,
    ensures
        minted_after(p, block, d) == p.minted_total,
        acc_after(p, block, d) == p.acc(),
{
    assert(!accruing(p, block));
}

/// Law: a rate-capped pool near its cap clamps the effective reward to
/// exactly the remaining room, `max_mintable - minted_total`.
pub proof fn lemma_clamp_exact(p: Pool, block: u64, d: u8)
    requires
        accruing(p, block),
        p.pool_type == PoolType::RateCapped,
        p.minted_total + raw_reward(p, block) > p.max_mintable,
    ensures
        capped_reward(p, block) == p.max_mintable - p.minted_total,
        minted_after(p, block, d) == p.max_mintable,
{
}

} // verus!
