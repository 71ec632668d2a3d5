use vstd::prelude::*;

use crate::clock::now_millis;

verus! {

/// Length of the enrollment window: seven days, in milliseconds.
pub const ENROLLMENT_WINDOW_MILLIS: i64 = 604_800_000;

/// The error of a stake made once the enrollment window has closed.
#[derive(Debug, Clone, Copy, PartialEq, Eq, Structural)]
pub struct DeadlineExceeded;

/// A staking pool.
///
/// `stakers` holds one entry per participant, in the order in which each
/// first staked; `start_date` is the creation time in milliseconds since
/// the Unix epoch.
pub struct Contract {
    pub total_coins: u64,
    pub stakers: Vec<(String, u64)>,
    pub start_date: i64,
}

/// Whether a stake made at `now` falls inside the window of a pool created
/// at `start`.
pub open spec fn enrollment_open(start: int, now: int) -> bool {
    now < start + ENROLLMENT_WINDOW_MILLIS
}

impl Contract {
    /// The recorded stakes, as (identity, amount) pairs.
    pub open spec fn entries(&self) -> Seq<(Seq<char>, u64)> {
        self.stakers@.map_values(|e: (String, u64)| (e.0@, e.1))
    }

    /// No identity is recorded twice.
    pub open spec fn wf(&self) -> bool {
        keys_distinct(self.entries())
    }

    /// A pool with reward `total_coins`, created now, with no stakes.
    pub fn new(total_coins: u64) -> (r: Contract)
        ensures
            r.wf(),
            r.total_coins == total_coins,
            r.entries().len() == 0,
            r.start_date >= 0,
    {
        Contract::new_at(total_coins, now_millis())
    }

    /// A pool with reward `total_coins`, created at `start_date`, with no
    /// stakes.
    pub fn new_at(total_coins: u64, start_date: i64) -> (r: Contract)
        ensures
            r.wf(),
            r.total_coins == total_coins,
            r.entries().len() == 0,
            r.start_date == start_date,
    {
        Contract { total_coins, stakers: Vec::new(), start_date }
    }
}

/// No identity occurs twice among `s`.
pub open spec fn keys_distinct(s: Seq<(Seq<char>, u64)>) -> bool {
    forall|i: int, j: int| 0 <= i < j < s.len() ==> s[i].0 != s[j].0
}

/// Whether `user` has an entry among `s`.
pub open spec fn has_entry(s: Seq<(Seq<char>, u64)>, user: Seq<char>) -> bool {
    exists|i: int| 0 <= i < s.len() && s[i].0 == user
}

/// The position of the entry of `user` among `s`, where there is one.
pub open spec fn entry_index(s: Seq<(Seq<char>, u64)>, user: Seq<char>) -> int {
    choose|i: int| 0 <= i < s.len() && s[i].0 == user
}

/// The amount recorded for `user` among `s`, if any.
pub open spec fn amount_of(s: Seq<(Seq<char>, u64)>, user: Seq<char>) -> Option<u64> {
    if has_entry(s, user) {
        Some(s[entry_index(s, user)].1)
    } else {
        None
    }
}

/// The stakes `s` after `user` stakes `amount`: an entry of `user` takes
/// the new amount in its place; with none, a new entry goes at the end.
pub open spec fn staked(s: Seq<(Seq<char>, u64)>, user: Seq<char>, amount: u64) -> Seq<
    (Seq<char>, u64),
> {
    if has_entry(s, user) {
        s.update(entry_index(s, user), (user, amount))
    } else {
        s.push((user, amount))
    }
}

/// Sum of the amounts staked in `s`.
pub open spec fn total_staked(s: Seq<(Seq<char>, u64)>) -> nat
    decreases s.len(),
{
    if s.len() == 0 {
        0
    } else {
        (total_staked(s.drop_last()) + s.last().1) as nat
    }
}

/// The reward of a stake of `amount` out of `total` staked, when
/// `total_reward` is shared: the proportional share, rounded down.
pub open spec fn reward_for(amount: u64, total_reward: u64, total: nat) -> int {
    (amount as int * total_reward as int) / total as int
}

/// The reward of each entry of `s` when `total_reward` is shared among
/// stakes summing to `total`, in the order of `s`.
pub open spec fn rewards_over(s: Seq<(Seq<char>, u64)>, total_reward: u64, total: nat) -> Seq<
    (Seq<char>, int),
> {
    s.map_values(|e: (Seq<char>, u64)| (e.0, reward_for(e.1, total_reward, total)))
}

/// What distributing `total_reward` over the stakes `s` hands out: nothing
/// when no stake is positive, else each participant's proportional reward,
/// in the order of `s`.
pub open spec fn distribution(s: Seq<(Seq<char>, u64)>, total_reward: u64) -> Seq<
    (Seq<char>, int),
> {
    if total_staked(s) == 0 {
        Seq::empty()
    } else {
        rewards_over(s, total_reward, total_staked(s))
    }
}

/// The rewards of a distribution, as plain values.
pub open spec fn rewards_view(v: Seq<(String, u64)>) -> Seq<(Seq<char>, int)> {
    v.map_values(|e: (String, u64)| (e.0@, e.1 as int))
}

/// Sum of the rewards in `d`.
pub open spec fn reward_sum(d: Seq<(Seq<char>, int)>) -> int
    decreases d.len(),
{
    if d.len() == 0 {
        0
    } else {
        reward_sum(d.drop_last()) + d.last().1
    }
}

proof fn lemma_total_staked_push(s: Seq<(Seq<char>, u64)>, i: int)
    requires
        0 <= i < s.len(),
    ensures
        total_staked(s.take(i + 1)) == total_staked(s.take(i)) + s[i].1,
{
    assert(s.take(i + 1).drop_last() =~= s.take(i));
}

proof fn lemma_amount_within_total(s: Seq<(Seq<char>, u64)>, i: int)
    requires
        0 <= i < s.len(),
    ensures
        s[i].1 <= total_staked(s),
    decreases s.len(),
{
    if i < s.len() - 1 {
        lemma_amount_within_total(s.drop_last(), i);
    }
}

proof fn lemma_share_within_reward(amount: u64, total_reward: u64, total: nat)
    requires
        amount <= total,
        total > 0,
    ensures
        0 <= reward_for(amount, total_reward, total) <= total_reward,
{
    let a = amount as int;
    let t = total_reward as int;
    let s = total as int;
    assert(a * t <= s * t) by (nonlinear_arith)
        requires
            0 <= a <= s,
            0 <= t,
    ;
    assert(0 <= a * t) by (nonlinear_arith)
        requires
            0 <= a,
            0 <= t,
    ;
    vstd::arithmetic::div_mod::lemma_div_is_ordered(a * t, s * t, s);
    vstd::arithmetic::div_mod::lemma_div_multiples_vanish(t, s);
    vstd::arithmetic::div_mod::lemma_div_pos_is_pos(a * t, s);
}

proof fn lemma_floor_share(amount: u64, total_reward: u64, total: nat)
    requires
        total > 0,
    ensures
        reward_for(amount, total_reward, total) * total <= amount as int * total_reward as int,
{
    let x = amount as int * total_reward as int;
    let d = total as int;
    vstd::arithmetic::div_mod::lemma_fundamental_div_mod(x, d);
    vstd::arithmetic::div_mod::lemma_mod_pos_bound(x, d);
    vstd::arithmetic::mul::lemma_mul_is_commutative(d, x / d);
}

proof fn lemma_scaled_reward_sum(s: Seq<(Seq<char>, u64)>, total_reward: u64, total: nat)
    requires
        total > 0,
    ensures
        reward_sum(rewards_over(s, total_reward, total)) * total <= total_reward as int
            * total_staked(s),
    decreases s.len(),
{
    if s.len() > 0 {
        let prefix = s.drop_last();
        let a = s.last().1;
        assert(rewards_over(s, total_reward, total).drop_last() =~= rewards_over(
            prefix,
            total_reward,
            total,
        ));
        lemma_scaled_reward_sum(prefix, total_reward, total);
        lemma_floor_share(a, total_reward, total);
        let r0 = reward_sum(rewards_over(prefix, total_reward, total));
        let f = reward_for(a, total_reward, total);
        let t0 = total_staked(prefix) as int;
        let t = total_reward as int;
        let d = total as int;
        assert((r0 + f) * d <= t * (t0 + a)) by (nonlinear_arith)
            requires
                r0 * d <= t * t0,
                f * d <= a as int * t,
        ;
    }
}

/// However the stakes stand, a distribution never hands out more than the
/// reward: each share is rounded down, and the shares of the exact
/// proportions add up to the reward.
pub proof fn lemma_distribution_within_reward(s: Seq<(Seq<char>, u64)>, total_reward: u64)
    requires
        total_staked(s) > 0,
    ensures
        reward_sum(distribution(s, total_reward)) <= total_reward,
{
    let d = total_staked(s);
    lemma_scaled_reward_sum(s, total_reward, d);
    let r = reward_sum(rewards_over(s, total_reward, d));
    let t = total_reward as int;
    assert(r <= t) by (nonlinear_arith)
        requires
            r * d <= t * d,
            d > 0,
    ;
}

/// Staking twice for one identity overwrites: the second amount replaces
/// the first, no entry is added by the second stake, and the pool ends as
/// if only the second stake had been made.
pub proof fn lemma_restake_overwrites(
    s: Seq<(Seq<char>, u64)>,
    user: Seq<char>,
    first: u64,
    second: u64,
)
    requires
        keys_distinct(s),
    ensures
        staked(staked(s, user, first), user, second) == staked(s, user, second),
        staked(staked(s, user, first), user, second).len() == staked(s, user, first).len(),
        amount_of(staked(staked(s, user, first), user, second), user) == Some(second),
        keys_distinct(staked(staked(s, user, first), user, second)),
{
    let once = staked(s, user, first);
    let i = if has_entry(s, user) {
        entry_index(s, user)
    } else {
        s.len() as int
    };
    assert(once[i].0 == user);
    assert(has_entry(once, user));
    assert(entry_index(once, user) == i);
    let twice = staked(once, user, second);
    assert(twice =~= staked(s, user, second));
    assert(twice[i].0 == user);
    assert(has_entry(twice, user));
    assert(entry_index(twice, user) == i);
}

/// Distributing twice with no stake in between gives the same rewards:
/// what `distribute_rewards` returns depends on the pool alone.
pub proof fn lemma_distribution_is_deterministic(
    pool: Contract,
    first: Seq<(String, u64)>,
    second: Seq<(String, u64)>,
)
    requires
        rewards_view(first) == distribution(pool.entries(), pool.total_coins),
        rewards_view(second) == distribution(pool.entries(), pool.total_coins),
    ensures
        rewards_view(first) == rewards_view(second),
{
}

impl Contract {
    /// Records a stake of `amount` for `user`, made at time `now` (in
    /// milliseconds since the Unix epoch). Inside the enrollment window the
    /// amount replaces any earlier stake of `user`; from the deadline on, the
    /// call fails and leaves the pool as it was.
    pub fn stake_at(&mut self, user: String, amount: u64, now: i64) -> (r: Result<
        (),
        DeadlineExceeded,
    >)
        requires
            old(self).wf(),
        ensures
            final(self).wf(),
            r is Ok <==> enrollment_open(old(self).start_date as int, now as int),
            r is Ok ==> final(self).entries() == staked(old(self).entries(), user@, amount),
            r is Ok ==> final(self).total_coins == old(self).total_coins,
            r is Ok ==> final(self).start_date == old(self).start_date,
            r is Err ==> *final(self) == *old(self),
    {
        if now as i128 >= self.start_date as i128 + ENROLLMENT_WINDOW_MILLIS as i128 {
            return Err(DeadlineExceeded);
        }
        let ghost s = self.entries();
        let n = self.stakers.len();
        let mut i: usize = 0;
        while i < n
            invariant
                n == self.stakers.len(),
                s == self.entries(),
                *self == *old(self),
                enrollment_open(old(self).start_date as int, now as int),
                keys_distinct(s),
                i <= n,
                forall|j: int| 0 <= j < i ==> s[j].0 != user@,
            decreases n - i,
        {
            if self.stakers[i].0 == user {
                proof {
                    assert(s[i as int].0 == user@);
                    assert(entry_index(s, user@) == i as int);
                }
                self.stakers[i].1 = amount;
                assert(self.entries() =~= s.update(i as int, (user@, amount)));
                return Ok(());
            }
            i = i + 1;
        }
        self.stakers.push((user, amount));
        assert(self.entries() =~= s.push((user@, amount)));
        Ok(())
    }

    /// Records a stake of `amount` for `user` at the current time, as
    /// [`Contract::stake_at`] does. The clock alone decides whether the
    /// window is still open; either way the outcome is one of the two that
    /// `stake_at` allows.
    pub fn stake(&mut self, user: String, amount: u64) -> (r: Result<(), DeadlineExceeded>)
        requires
            old(self).wf(),
        ensures
            final(self).wf(),
            r is Ok ==> final(self).entries() == staked(old(self).entries(), user@, amount),
            r is Ok ==> final(self).total_coins == old(self).total_coins,
            r is Ok ==> final(self).start_date == old(self).start_date,
            r is Err ==> *final(self) == *old(self),
    {
        let now = now_millis();
        self.stake_at(user, amount, now)
    }

    /// The amount staked by `user`, if `user` has staked.
    pub fn stake_of(&self, user: &str) -> (r: Option<u64>)
        requires
            self.wf(),
        ensures
            r == amount_of(self.entries(), user@),
    {
        let key = user.to_owned();
        let ghost s = self.entries();
        let n = self.stakers.len();
        let mut i: usize = 0;
        while i < n
            invariant
                n == self.stakers.len(),
                s == self.entries(),
                key@ == user@,
                keys_distinct(s),
                i <= n,
                forall|j: int| 0 <= j < i ==> s[j].0 != user@,
            decreases n - i,
        {
            if self.stakers[i].0 == key {
                assert(s[i as int].0 == user@);
                assert(entry_index(s, user@) == i as int);
                return Some(self.stakers[i].1);
            }
            i = i + 1;
        }
        None
    }

    /// Shares the reward out over the recorded stakes, in the order in which
    /// participants first staked. The rounding remainder is not handed out.
    /// Where no stake is positive, the result is empty.
    pub fn distribute_rewards(&self) -> (r: Vec<(String, u64)>)
        ensures
            rewards_view(r@) == distribution(self.entries(), self.total_coins),
    {
        let ghost s = self.entries();
        let n = self.stakers.len();
        let mut total: u128 = 0;
        let mut i: usize = 0;
        while i < n
            invariant
                n == s.len(),
                s == self.entries(),
                i <= n,
                total == total_staked(s.take(i as int)),
                total <= i as int * u64::MAX as int,
            decreases n - i,
        {
            proof {
                lemma_total_staked_push(s, i as int);
            }
            total = total + self.stakers[i].1 as u128;
            i = i + 1;
        }
        assert(s.take(n as int) =~= s);
        let mut rewards: Vec<(String, u64)> = Vec::new();
        if total == 0 {
            assert(rewards_view(rewards@) =~= distribution(s, self.total_coins));
            return rewards;
        }
        let ghost total_nat = total as nat;
        let mut k: usize = 0;
        while k < n
            invariant
                n == s.len(),
                s == self.entries(),
                k <= n,
                total_nat == total as nat,
                total_nat == total_staked(s),
                total > 0,
                rewards.len() == k,
                forall|j: int|
                    0 <= j < k ==> #[trigger] rewards@[j].0@ == s[j].0 && rewards@[j].1
                        == reward_for(s[j].1, self.total_coins, total_nat),
            decreases n - k,
        {
            let amount = self.stakers[k].1;
            proof {
                assert(s[k as int].1 == amount);
                lemma_amount_within_total(s, k as int);
                lemma_share_within_reward(amount, self.total_coins, total_nat);
                assert(amount as int * self.total_coins as int <= u64::MAX as int * u64::MAX as int)
                    by (nonlinear_arith)
                    requires
                        amount <= u64::MAX,
                        self.total_coins <= u64::MAX,
                ;
            }
            let reward = (amount as u128 * self.total_coins as u128) / total;
            rewards.push((self.stakers[k].0.clone(), reward as u64));
            k = k + 1;
        }
        assert(rewards_view(rewards@) =~= distribution(s, self.total_coins));
        rewards
    }
}

} // verus!
