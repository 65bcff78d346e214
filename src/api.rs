//! Messages and responses exchanged with the ledger.

use vstd::prelude::*;

verus! {

/// An amount of one native denomination.
#[derive(Clone, Debug, PartialEq, Eq)]
pub struct Coin {
    pub denom: String,
    pub amount: u128,
}

/// A participant of the membership source with their weight.
#[derive(Clone, Debug, PartialEq, Eq)]
pub struct Member {
    pub addr: String,
    pub weight: u64,
}

/// A change of one participant's weight; `new` is `None` when the participant left.
#[derive(Clone, Debug, PartialEq, Eq)]
pub struct MemberDiff {
    pub key: String,
    pub old: Option<u64>,
    pub new: Option<u64>,
}

#[derive(Clone, Debug, PartialEq, Eq)]
pub struct UpdateUserWeightsMsg {
    /// New weights that the users have, after the change
    pub diffs: Vec<MemberDiff>,
}

#[derive(Clone, Debug, PartialEq, Eq)]
pub struct UpdateMinimumEligibleWeightMsg {
    /// New minimum weight that the user must have to be eligible for rewards distributions
    pub minimum_eligible_weight: u128,
}

#[derive(Clone, Debug, PartialEq, Eq)]
pub struct UserWeight {
    pub user: String,
    pub weight: u128,
}

#[derive(Clone, Debug, PartialEq, Eq)]
pub struct ClaimRewardsMsg {
    pub user: String,
    /// Native denominations to be claimed
    pub native_denoms: Option<Vec<String>>,
}

#[derive(Clone, Debug, PartialEq, Eq)]
pub struct UserRewardsParams {
    pub user: String,
    /// Native denominations to be queried for rewards
    pub native_denoms: Option<Vec<String>>,
}

#[derive(Clone, Debug, PartialEq, Eq)]
pub struct UserRewardsResponse {
    pub native_rewards: Vec<NativeReward>,
}

#[derive(Clone, Debug, PartialEq, Eq)]
pub struct MinimumEligibleWeightResponse {
    pub minimum_eligible_weight: u128,
}

#[derive(Clone, Debug, PartialEq, Eq)]
pub struct NativeReward {
    pub denom: String,
    pub amount: u128,
}

/// A transfer of funds that the ledger asks its owner to perform.
#[derive(Clone, Debug, PartialEq, Eq)]
pub struct BankSend {
    pub to_address: String,
    pub amount: Vec<Coin>,
}

#[derive(Clone, Debug, PartialEq, Eq)]
pub struct InstantiateMsg {
    pub squad_contract: String,
    /// Optional minimum weight that the user must have to be eligible for rewards distributions
    pub minimum_eligible_weight: Option<u128>,
}

#[derive(Clone, Debug, PartialEq, Eq)]
pub enum ExecuteMsg {
    MemberChangedHook(UpdateUserWeightsMsg),
    UpdateMinimumEligibleWeight(UpdateMinimumEligibleWeightMsg),
    DistributeNative {},
    ClaimRewards(ClaimRewardsMsg),
}

#[derive(Clone, Debug, PartialEq, Eq)]
pub enum QueryMsg {
    UserRewards(UserRewardsParams),
    MinimumEligibleWeight {},
}

#[derive(Clone, Debug, PartialEq, Eq)]
pub enum QueryResponse {
    UserRewards(UserRewardsResponse),
    MinimumEligibleWeight(MinimumEligibleWeightResponse),
}

#[derive(Clone, Debug, PartialEq, Eq)]
pub struct MigrateMsg {
    pub new_hook_src: String,
}

} // verus!
