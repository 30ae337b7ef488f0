//! Reward-accrual engine for staking pools.
//!
//! The engine rolls a pool's accumulated-reward-per-share forward block by
//! block and credits each staker's share, using checked arbitrary-precision
//! decimal arithmetic so that replayed histories give bit-exact results.

pub mod decimal;
pub mod digits;
pub mod engine;
pub mod errors;
pub mod laws;

pub use decimal::Decimal;
pub use engine::Pool;
pub use engine::PoolType;
pub use engine::User;
pub use engine::get_num_by_decimal;
pub use engine::get_per_share_multiplier;
pub use engine::query_reward;
pub use engine::update_pool;
pub use engine::update_user_stake;
pub use engine::withdraw_user_reward;
pub use errors::EngineError;
