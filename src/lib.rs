//! A fixed-pool staking ledger.
//!
//! Participants record a stake during an enrollment window that opens when
//! the pool is created and lasts seven days. A fixed reward is then shared
//! out in proportion to each participant's part of the total stake.
mod clock;
mod pool;

pub use pool::{
    amount_of, distribution, enrollment_open, entry_index, has_entry, keys_distinct,
    lemma_distribution_is_deterministic, lemma_distribution_within_reward,
    lemma_restake_overwrites, reward_for, reward_sum, rewards_over, rewards_view, staked,
    total_staked, Contract, DeadlineExceeded, ENROLLMENT_WINDOW_MILLIS,
};
