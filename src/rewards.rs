//! The accrual engine: what a participant can claim, given an index and a settlement.

use crate::api::{NativeReward, UserRewardsParams, UserRewardsResponse};
use crate::decimal::{mul_floor, scaled_floor};
use crate::error::DistributorError;
use crate::state::{
    denom_lt, distribution_pos, settled_within, GlobalIndex, Ledger, LedgerState,
};
use vstd::prelude::*;

verus! {

/// Reward accrued at `weight` while the index rose from `user_index` to `global_index`,
/// truncated to a whole unit.
pub open spec fn accrued_reward(global_index: int, user_index: int, weight: int) -> int {
    scaled_floor(global_index - user_index, weight)
}

/// What a participant can claim: the accrual since their last settlement plus what was pending
/// then. No settlement counts as index zero and nothing pending.
pub open spec fn user_reward(global_index: int, distribution: Option<(u128, u128)>, weight: int) -> int {
    match distribution {
        None => accrued_reward(global_index, 0, weight),
        Some((user_index, pending)) => accrued_reward(global_index, user_index as int, weight)
            + pending,
    }
}

/// Reward accrued for an asset since the participant's index was last brought up to date.
pub fn calculate_new_user_reward(global_index: u128, user_index: u128, user_weight: u128) -> (r:
    Result<u128, DistributorError>)
    requires
        user_index <= global_index,
    ensures
        accrued_reward(global_index as int, user_index as int, user_weight as int) <= u128::MAX
            ==> r == Ok::<u128, DistributorError>(
            accrued_reward(global_index as int, user_index as int, user_weight as int) as u128,
        ),
        accrued_reward(global_index as int, user_index as int, user_weight as int) > u128::MAX
            ==> r == Err::<u128, DistributorError>(DistributorError::Overflow),
{
    match mul_floor(global_index - user_index, user_weight) {
        Some(v) => Ok(v),
        None => Err(DistributorError::Overflow),
    }
}

/// A participant's currently claimable reward for an asset, given its global index, their
/// settlement `(user_index, pending_rewards)` if any, and their effective weight.
pub fn calculate_user_reward(
    global_index: u128,
    distribution: Option<(u128, u128)>,
    user_weight: u128,
) -> (r: Result<u128, DistributorError>)
    requires
        distribution matches Some((user_index, _)) ==> user_index <= global_index,
    ensures
        user_reward(global_index as int, distribution, user_weight as int) <= u128::MAX ==> r
            == Ok::<u128, DistributorError>(
            user_reward(global_index as int, distribution, user_weight as int) as u128,
        ),
        user_reward(global_index as int, distribution, user_weight as int) > u128::MAX ==> r
            == Err::<u128, DistributorError>(DistributorError::Overflow),
{
    let (user_index, pending_rewards) = match distribution {
        Some(d) => d,
        None => (0u128, 0u128),
    };
    let accrued = calculate_new_user_reward(global_index, user_index, user_weight)?;
    match accrued.checked_add(pending_rewards) {
        Some(v) => Ok(v),
        None => Err(DistributorError::Overflow),
    }
}

pub open spec fn contains_denom(s: Seq<String>, denom: Seq<char>) -> bool {
    exists|i: int| 0 <= i < s.len() && (#[trigger] s[i])@ == denom
}

/// `s` with every denomination after its first occurrence removed.
pub open spec fn dedup_denoms(s: Seq<String>) -> Seq<String>
    decreases s.len(),
{
    if s.len() == 0 {
        s
    } else {
        let prev = dedup_denoms(s.drop_last());
        if contains_denom(prev, s.last()@) {
            prev
        } else {
            prev.push(s.last())
        }
    }
}

/// No denomination occurs twice in `s`.
pub open spec fn distinct_denoms(s: Seq<String>) -> bool {
    forall|i: int, j: int| 0 <= i < s.len() && 0 <= j < s.len() && (#[trigger] s[i])@ == (#[trigger] s[j])@ ==> i == j
}

proof fn lemma_contains_push(s: Seq<String>, x: String, d: Seq<char>)
    ensures
        contains_denom(s.push(x), d) == (contains_denom(s, d) || x@ == d),
{
    if contains_denom(s, d) {
        let i = choose|i: int| 0 <= i < s.len() && (#[trigger] s[i])@ == d;
        assert(s.push(x)[i] == s[i]);
    }
    if x@ == d {
        assert(s.push(x)[s.len() as int] == x);
    }
    if contains_denom(s.push(x), d) {
        let i = choose|i: int| 0 <= i < s.push(x).len() && (#[trigger] s.push(x)[i])@ == d;
        if i < s.len() {
            assert(s[i] == s.push(x)[i]);
        }
    }
}

pub proof fn lemma_dedup_denoms(s: Seq<String>)
    ensures
        distinct_denoms(dedup_denoms(s)),
        forall|d: Seq<char>| #[trigger] contains_denom(dedup_denoms(s), d) == contains_denom(s, d),
    decreases s.len(),
{
    if s.len() > 0 {
        lemma_dedup_denoms(s.drop_last());
        let prev = dedup_denoms(s.drop_last());
        assert forall|d: Seq<char>| #[trigger] contains_denom(dedup_denoms(s), d) == contains_denom(s, d) by {
            lemma_contains_push(s.drop_last(), s.last(), d);
            assert(s.drop_last().push(s.last()) =~= s);
            lemma_contains_push(prev, s.last(), d);
        }
        if !contains_denom(prev, s.last()@) {
            let r = dedup_denoms(s);
            assert forall|i: int, j: int| 0 <= i < r.len() && 0 <= j < r.len() && (#[trigger] r[i])@ == (#[trigger] r[j])@ implies i == j by {
                if i < prev.len() && j == prev.len() {
                    assert(prev[i]@ == s.last()@);
                } else if j < prev.len() && i == prev.len() {
                    assert(prev[j]@ == s.last()@);
                } else if i < prev.len() && j < prev.len() {
                    assert(prev[i]@ == prev[j]@);
                }
            }
        }
    }
}

/// Takes a vector of native denoms and returns a vector with all duplicates removed, keeping
/// the first occurrence of each in order.
pub fn dedup_native_denoms(assets: Vec<String>) -> (r: Vec<String>)
    ensures
        r@ == dedup_denoms(assets@),
{
    let mut deduped_assets: Vec<String> = Vec::new();
    let mut i: usize = 0;
    assert(assets@.take(0) =~= Seq::<String>::empty());
    while i < assets.len()
        invariant
            0 <= i <= assets@.len(),
            deduped_assets@ == dedup_denoms(assets@.take(i as int)),
        decreases assets@.len() - i,
    {
        let asset = &assets[i];
        let mut seen = false;
        let mut j: usize = 0;
        while j < deduped_assets.len()
            invariant
                0 <= j <= deduped_assets@.len(),
                seen == exists|k: int| 0 <= k < j && (#[trigger] deduped_assets@[k])@ == asset@,
            decreases deduped_assets@.len() - j,
        {
            if deduped_assets[j] == *asset {
                seen = true;
            }
            j += 1;
        }
        proof {
            assert(assets@.take(i + 1).drop_last() =~= assets@.take(i as int));
            assert(assets@.take(i + 1).last() == assets@[i as int]);
        }
        if !seen {
            deduped_assets.push(asset.clone());
        }
        i += 1;
    }
    assert(assets@.take(assets@.len() as int) =~= assets@);
    deduped_assets
}

/// The denominations a request names, or every denomination with an index.
pub open spec fn named_denoms(s: LedgerState, denoms: Option<Vec<String>>) -> Seq<String> {
    match denoms {
        Some(d) => d@,
        None => s.indices.map_values(|e: GlobalIndex| e.denom),
    }
}

/// The denominations a request names, or every denomination with an index, without repeats.
pub open spec fn requested_denoms(s: LedgerState, denoms: Option<Vec<String>>) -> Seq<String> {
    dedup_denoms(named_denoms(s, denoms))
}

/// `rewards` gives, for each requested denomination in order, what the user can claim in it.
pub open spec fn rewards_match(s: LedgerState, params: UserRewardsParams, rewards: Seq<NativeReward>) -> bool {
    let denoms = requested_denoms(s, params.native_denoms);
    &&& rewards.len() == denoms.len()
    &&& forall|i: int|
        0 <= i < denoms.len() ==> (#[trigger] rewards[i]).denom@ == denoms[i]@ && rewards[i].amount
            == s.claimable(params.user@, denoms[i]@)
}

/// The rewards are listed in ascending order of denomination.
pub open spec fn ascending_rewards(rewards: Seq<NativeReward>) -> bool {
    forall|i: int, j: int|
        0 <= i < j < rewards.len() ==> denom_lt(
            (#[trigger] rewards[i]).denom@,
            (#[trigger] rewards[j]).denom@,
        )
}

/// Removing repeats from a sequence that has none leaves it as it is.
pub proof fn lemma_dedup_distinct(s: Seq<String>)
    requires
        distinct_denoms(s),
    ensures
        dedup_denoms(s) == s,
    decreases s.len(),
{
    if s.len() > 0 {
        let m = s.drop_last();
        assert(distinct_denoms(m)) by {
            assert forall|i: int, j: int|
                0 <= i < m.len() && 0 <= j < m.len() && (#[trigger] m[i])@ == (#[trigger] m[j])@
                implies i == j by {
                assert(s[i]@ == s[j]@);
            }
        }
        lemma_dedup_distinct(m);
        if contains_denom(m, s.last()@) {
            let i = choose|i: int| 0 <= i < m.len() && (#[trigger] m[i])@ == s.last()@;
            assert(s[i]@ == s[s.len() - 1]@);
        }
        assert(m.push(s.last()) =~= s);
    }
}

/// Some requested amount does not fit in 128 bits.
pub open spec fn rewards_overflow(s: LedgerState, params: UserRewardsParams) -> bool {
    let denoms = requested_denoms(s, params.native_denoms);
    exists|i: int| 0 <= i < denoms.len() && s.claimable(params.user@, (#[trigger] denoms[i])@) > u128::MAX
}

impl Ledger {
    /// Every denomination with an index, in ascending order.
    pub fn known_denoms(&self) -> (r: Vec<String>)
        ensures
            r@ == self.global_indices@.map_values(|e: GlobalIndex| e.denom),
    {
        let mut r: Vec<String> = Vec::new();
        let mut i: usize = 0;
        while i < self.global_indices.len()
            invariant
                0 <= i <= self.global_indices@.len(),
                r@ == self.global_indices@.take(i as int).map_values(|e: GlobalIndex| e.denom),
            decreases self.global_indices@.len() - i,
        {
            r.push(self.global_indices[i].denom.clone());
            i += 1;
            assert(r@ =~= self.global_indices@.take(i as int).map_values(|e: GlobalIndex| e.denom));
        }
        assert(self.global_indices@.take(i as int) =~= self.global_indices@);
        r
    }

    /// The denominations a request names, or every denomination with an index, without repeats.
    pub fn requested_denoms(&self, denoms: &Option<Vec<String>>) -> (r: Vec<String>)
        ensures
            r@ == requested_denoms(self@, *denoms),
    {
        let all = match denoms {
            Some(d) => d.clone(),
            None => self.known_denoms(),
        };
        dedup_native_denoms(all)
    }

    /// What `params.user` can claim now in each requested denomination, in the order requested,
    /// without repeats; when none are named, in every denomination with an index, in ascending
    /// order. Nothing in the ledger changes.
    pub fn query_user_rewards(&self, params: &UserRewardsParams) -> (r: Result<
        UserRewardsResponse,
        DistributorError,
    >)
        requires
            self@.wf(),
        ensures
            match r {
                Ok(resp) => rewards_match(self@, *params, resp.native_rewards@) && (
                params.native_denoms is None ==> ascending_rewards(resp.native_rewards@)),
                Err(e) => e == DistributorError::Overflow && rewards_overflow(self@, *params),
            },
    {
        let denoms = self.requested_denoms(&params.native_denoms);
        let user_weight = self.effective_weight(&params.user);
        let mut native_rewards: Vec<NativeReward> = Vec::new();
        let mut i: usize = 0;
        while i < denoms.len()
            invariant
                0 <= i <= denoms@.len(),
                self@.wf(),
                denoms@ == requested_denoms(self@, params.native_denoms),
                user_weight == crate::state::effective_weight_of(self@.weights, params.user@),
                native_rewards@.len() == i,
                forall|k: int|
                    0 <= k < i ==> (#[trigger] native_rewards@[k]).denom@ == denoms@[k]@
                        && native_rewards@[k].amount == self@.claimable(params.user@, denoms@[k]@),
            decreases denoms@.len() - i,
        {
            let denom = &denoms[i];
            let global_index = self.global_index(denom);
            let prior = self.distribution(&params.user, denom);
            proof {
                if let Some((l, p)) = prior {
                    let k = distribution_pos(self@.distributions, params.user@, denom@);
                    assert(settled_within(self@.indices, self@.distributions[k]));
                }
            }
            let amount = match calculate_user_reward(global_index, prior, user_weight) {
                Ok(v) => v,
                Err(_) => {
                    return Err(DistributorError::Overflow);
                },
            };
            native_rewards.push(NativeReward { denom: denom.clone(), amount });
            i += 1;
        }
        proof {
            if params.native_denoms is None {
                let keys = self@.indices.map_values(|e: GlobalIndex| e.denom);
                assert(distinct_denoms(keys)) by {
                    assert forall|a: int, b: int|
                        0 <= a < keys.len() && 0 <= b < keys.len() && (#[trigger] keys[a])@ == (
                        #[trigger] keys[b])@ implies a == b by {
                        assert(self@.indices[a].denom@ == self@.indices[b].denom@);
                    }
                }
                lemma_dedup_distinct(keys);
                assert forall|a: int, b: int| 0 <= a < b < native_rewards@.len() implies denom_lt(
                    (#[trigger] native_rewards@[a]).denom@,
                    (#[trigger] native_rewards@[b]).denom@,
                ) by {
                    assert(denom_lt(self@.indices[a].denom@, self@.indices[b].denom@));
                }
            }
        }
        Ok(UserRewardsResponse { native_rewards })
    }
}

} // verus!
