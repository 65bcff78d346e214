use funds_distributor::api::{
    BankSend, ClaimRewardsMsg, Coin, ExecuteMsg, InstantiateMsg, Member, MemberDiff, MigrateMsg,
    NativeReward, QueryMsg, QueryResponse, UpdateMinimumEligibleWeightMsg, UpdateUserWeightsMsg,
    UserRewardsParams,
};
use funds_distributor::contract::{execute, instantiate, migrate, query};
use funds_distributor::error::DistributorError;
use funds_distributor::error::DistributorError::ZeroTotalWeight;
use funds_distributor::rewards::{calculate_new_user_reward, calculate_user_reward, dedup_native_denoms};
use funds_distributor::state::Ledger;
use funds_distributor::user_weights::calculate_effective_weight;

const SQUAD_CONTRACT: &str = "enterprise_contract";

const LUNA: &str = "uluna";

fn instantiate_default() -> Ledger {
    instantiate_with(None, vec![])
}

fn instantiate_with(minimum: Option<u128>, members: Vec<Member>) -> Ledger {
    instantiate(
        InstantiateMsg {
            squad_contract: SQUAD_CONTRACT.to_string(),
            minimum_eligible_weight: minimum,
        },
        &members,
    )
    .unwrap()
}

fn member(addr: &str, weight: u64) -> Member {
    Member { addr: addr.to_string(), weight }
}

fn native_reward(denom: &str, amount: u128) -> NativeReward {
    NativeReward { denom: denom.to_string(), amount }
}

fn coin(amount: u128, denom: &str) -> Coin {
    Coin { denom: denom.to_string(), amount }
}

fn distribute_native(ledger: &mut Ledger, funds: &[Coin]) -> Result<Option<BankSend>, DistributorError> {
    execute(ledger, &SQUAD_CONTRACT.to_string(), &funds.to_vec(), ExecuteMsg::DistributeNative {})
}

fn update_user_weights(
    ledger: &mut Ledger,
    sender: &str,
    diffs: Vec<(&str, Option<u64>)>,
) -> Result<Option<BankSend>, DistributorError> {
    let diffs = diffs
        .into_iter()
        .map(|(key, new)| MemberDiff { key: key.to_string(), old: None, new })
        .collect();
    execute(
        ledger,
        &sender.to_string(),
        &vec![],
        ExecuteMsg::MemberChangedHook(UpdateUserWeightsMsg { diffs }),
    )
}

fn claim(ledger: &mut Ledger, user: &str, denoms: Option<Vec<&str>>) -> Result<Option<BankSend>, DistributorError> {
    execute(
        ledger,
        &user.to_string(),
        &vec![],
        ExecuteMsg::ClaimRewards(ClaimRewardsMsg {
            user: user.to_string(),
            native_denoms: denoms.map(|d| d.into_iter().map(|x| x.to_string()).collect()),
        }),
    )
}

fn user_rewards(ledger: &Ledger, user: &str, denoms: Option<Vec<&str>>) -> Vec<NativeReward> {
    let params = UserRewardsParams {
        user: user.to_string(),
        native_denoms: denoms.map(|d| d.into_iter().map(|x| x.to_string()).collect()),
    };
    match query(ledger, &QueryMsg::UserRewards(params)).unwrap() {
        QueryResponse::UserRewards(resp) => resp.native_rewards,
        other => panic!("unexpected response {:?}", other),
    }
}

#[test]
pub fn no_rewards_after_instantiate() {
    let ledger = instantiate_default();

    let user_rewards = ledger
        .query_user_rewards(&UserRewardsParams {
            user: "user".to_string(),
            native_denoms: Some(vec!["uluna".to_string()]),
        })
        .unwrap();

    assert_eq!(user_rewards.native_rewards, vec![native_reward(LUNA, 0u128)]);
}

#[test]
pub fn distribute_native_zero_total_weight_fails() {
    let mut ledger = instantiate_default();

    let result = distribute_native(&mut ledger, &[coin(100u128, LUNA)]);

    assert_eq!(result, Err(ZeroTotalWeight));
}

#[test]
fn zero_total_weight_leaves_indices_unchanged() {
    let mut ledger = instantiate_with(None, vec![member("user1", 1)]);
    distribute_native(&mut ledger, &[coin(30, LUNA)]).unwrap();
    update_user_weights(&mut ledger, SQUAD_CONTRACT, vec![("user1", None)]).unwrap();
    let before = ledger.global_index(&LUNA.to_string());
    assert_eq!(distribute_native(&mut ledger, &[coin(50, LUNA)]), Err(ZeroTotalWeight));
    assert_eq!(ledger.global_index(&LUNA.to_string()), before);
}

#[test]
fn distribute_rewards_distributes_proportional_to_total_weight() {
    let mut ledger = instantiate_default();
    update_user_weights(&mut ledger, SQUAD_CONTRACT, vec![("user1", Some(1))]).unwrap();
    update_user_weights(&mut ledger, SQUAD_CONTRACT, vec![("user2", Some(2))]).unwrap();

    distribute_native(&mut ledger, &[coin(30, LUNA)]).unwrap();

    assert_eq!(user_rewards(&ledger, "user1", Some(vec![LUNA])), vec![native_reward(LUNA, 10)]);
    assert_eq!(user_rewards(&ledger, "user2", Some(vec![LUNA])), vec![native_reward(LUNA, 20)]);
}

#[test]
fn rewards_truncate_down() {
    let mut ledger = instantiate_with(None, vec![member("a", 1), member("b", 1), member("c", 1)]);
    distribute_native(&mut ledger, &[coin(100, LUNA)]).unwrap();
    let total: u128 = ["a", "b", "c"]
        .iter()
        .map(|u| user_rewards(&ledger, u, Some(vec![LUNA]))[0].amount)
        .sum();
    assert_eq!(user_rewards(&ledger, "a", Some(vec![LUNA])), vec![native_reward(LUNA, 33)]);
    assert_eq!(total, 99);
    // 100 / 3 at 18 fractional digits
    assert_eq!(ledger.global_index(&LUNA.to_string()), 33_333_333_333_333_333_333);
}

#[test]
fn rewards_calculated_properly_for_users_coming_after_distribution() {
    let mut ledger = instantiate_default();
    update_user_weights(&mut ledger, SQUAD_CONTRACT, vec![("user1", Some(1))]).unwrap();
    distribute_native(&mut ledger, &[coin(30, LUNA)]).unwrap();
    update_user_weights(&mut ledger, SQUAD_CONTRACT, vec![("user2", Some(2))]).unwrap();

    assert_eq!(user_rewards(&ledger, "user1", Some(vec![LUNA])), vec![native_reward(LUNA, 30)]);
    assert_eq!(user_rewards(&ledger, "user2", Some(vec![LUNA])), vec![native_reward(LUNA, 0)]);

    distribute_native(&mut ledger, &[coin(30, LUNA)]).unwrap();
    assert_eq!(user_rewards(&ledger, "user1", Some(vec![LUNA])), vec![native_reward(LUNA, 40)]);
    assert_eq!(user_rewards(&ledger, "user2", Some(vec![LUNA])), vec![native_reward(LUNA, 20)]);
}

#[test]
fn weight_change_settles_at_old_weight() {
    let mut ledger = instantiate_with(None, vec![member("user1", 1), member("user2", 1)]);
    distribute_native(&mut ledger, &[coin(100, LUNA)]).unwrap();
    update_user_weights(&mut ledger, SQUAD_CONTRACT, vec![("user1", Some(3))]).unwrap();
    assert_eq!(user_rewards(&ledger, "user1", Some(vec![LUNA])), vec![native_reward(LUNA, 50)]);
    distribute_native(&mut ledger, &[coin(100, LUNA)]).unwrap();
    assert_eq!(user_rewards(&ledger, "user1", Some(vec![LUNA])), vec![native_reward(LUNA, 125)]);
    assert_eq!(user_rewards(&ledger, "user2", Some(vec![LUNA])), vec![native_reward(LUNA, 75)]);
}

#[test]
fn departed_user_keeps_pending_rewards() {
    let mut ledger = instantiate_with(None, vec![member("user1", 1), member("user2", 1)]);
    distribute_native(&mut ledger, &[coin(100, LUNA)]).unwrap();
    update_user_weights(&mut ledger, SQUAD_CONTRACT, vec![("user1", None)]).unwrap();
    assert_eq!(ledger.total_weight, 1);
    distribute_native(&mut ledger, &[coin(100, LUNA)]).unwrap();
    assert_eq!(user_rewards(&ledger, "user1", Some(vec![LUNA])), vec![native_reward(LUNA, 50)]);
    assert_eq!(user_rewards(&ledger, "user2", Some(vec![LUNA])), vec![native_reward(LUNA, 150)]);
}

#[test]
fn query_twice_gives_same_result() {
    let mut ledger = instantiate_with(None, vec![member("user1", 2), member("user2", 5)]);
    distribute_native(&mut ledger, &[coin(77, LUNA), coin(13, "uatom")]).unwrap();
    let first = user_rewards(&ledger, "user1", None);
    let second = user_rewards(&ledger, "user1", None);
    assert_eq!(first, second);
    assert_eq!(first, vec![native_reward("uatom", 3), native_reward(LUNA, 22)]);
}

#[test]
fn query_dedups_requested_denoms() {
    let mut ledger = instantiate_with(None, vec![member("user1", 1)]);
    distribute_native(&mut ledger, &[coin(10, LUNA)]).unwrap();
    assert_eq!(
        user_rewards(&ledger, "user1", Some(vec![LUNA, "uatom", LUNA])),
        vec![native_reward(LUNA, 10), native_reward("uatom", 0)]
    );
}

#[test]
fn claim_zeroes_accrual_then_pays_new_rewards() {
    let mut ledger = instantiate_with(None, vec![member("user1", 1), member("user2", 3)]);
    distribute_native(&mut ledger, &[coin(40, LUNA)]).unwrap();

    let send = claim(&mut ledger, "user1", Some(vec![LUNA])).unwrap().unwrap();
    assert_eq!(send, BankSend { to_address: "user1".to_string(), amount: vec![coin(10, LUNA)] });
    assert_eq!(user_rewards(&ledger, "user1", Some(vec![LUNA])), vec![native_reward(LUNA, 0)]);

    distribute_native(&mut ledger, &[coin(80, LUNA)]).unwrap();
    let send = claim(&mut ledger, "user1", Some(vec![LUNA])).unwrap().unwrap();
    assert_eq!(send.amount, vec![coin(20, LUNA)]);
    assert_eq!(user_rewards(&ledger, "user2", Some(vec![LUNA])), vec![native_reward(LUNA, 90)]);
}

#[test]
fn claim_all_denoms_sorted_without_zero_amounts() {
    let mut ledger = instantiate_with(None, vec![member("user1", 1), member("user2", 1000)]);
    distribute_native(&mut ledger, &[coin(5005, "uusd"), coin(100, "uatom"), coin(1, "ukrw")]).unwrap();
    let send = claim(&mut ledger, "user1", None).unwrap().unwrap();
    assert_eq!(send.amount, vec![coin(5, "uusd")]);
    let send = claim(&mut ledger, "user2", None).unwrap().unwrap();
    assert_eq!(send.amount, vec![coin(99, "uatom"), coin(5000, "uusd")]);
}

#[test]
fn claim_of_never_distributed_denom_sends_nothing() {
    let mut ledger = instantiate_with(None, vec![member("user1", 1)]);
    let send = claim(&mut ledger, "user1", Some(vec![LUNA, LUNA])).unwrap().unwrap();
    assert_eq!(send.amount, vec![]);
    assert!(ledger.distributions.is_empty());
}

#[test]
fn minimum_eligible_weight_excludes_light_participants() {
    let mut ledger = instantiate_with(Some(5), vec![member("light", 4), member("heavy", 5)]);
    assert_eq!(ledger.total_weight, 5);
    assert_eq!(ledger.user_weights[0].weight, 4);
    assert_eq!(ledger.user_weights[0].effective_weight, 0);
    distribute_native(&mut ledger, &[coin(50, LUNA)]).unwrap();
    assert_eq!(user_rewards(&ledger, "light", Some(vec![LUNA])), vec![native_reward(LUNA, 0)]);
    assert_eq!(user_rewards(&ledger, "heavy", Some(vec![LUNA])), vec![native_reward(LUNA, 50)]);
}

#[test]
fn lowering_minimum_eligible_weight_settles_first() {
    let mut ledger = instantiate_with(Some(5), vec![member("light", 4), member("heavy", 5)]);
    distribute_native(&mut ledger, &[coin(50, LUNA)]).unwrap();
    let msg = UpdateMinimumEligibleWeightMsg { minimum_eligible_weight: 1 };
    assert_eq!(
        execute(&mut ledger, &"someone".to_string(), &vec![], ExecuteMsg::UpdateMinimumEligibleWeight(msg.clone())),
        Err(DistributorError::Unauthorized)
    );
    execute(&mut ledger, &SQUAD_CONTRACT.to_string(), &vec![], ExecuteMsg::UpdateMinimumEligibleWeight(msg)).unwrap();
    assert_eq!(ledger.total_weight, 9);
    distribute_native(&mut ledger, &[coin(90, LUNA)]).unwrap();
    assert_eq!(user_rewards(&ledger, "light", Some(vec![LUNA])), vec![native_reward(LUNA, 40)]);
    assert_eq!(user_rewards(&ledger, "heavy", Some(vec![LUNA])), vec![native_reward(LUNA, 100)]);
    match query(&ledger, &QueryMsg::MinimumEligibleWeight {}).unwrap() {
        QueryResponse::MinimumEligibleWeight(r) => assert_eq!(r.minimum_eligible_weight, 1),
        other => panic!("unexpected response {:?}", other),
    }
}

#[test]
fn update_user_weight_by_non_enterprise_fails() {
    let mut ledger = instantiate_default();
    let result = update_user_weights(&mut ledger, "not_enterprise", vec![("user", Some(0))]);
    assert_eq!(result, Err(DistributorError::Unauthorized));
    assert!(ledger.user_weights.is_empty());
}

#[test]
fn duplicate_initial_weight_fails() {
    let result = instantiate(
        InstantiateMsg { squad_contract: SQUAD_CONTRACT.to_string(), minimum_eligible_weight: None },
        &vec![member("user", 1), member("user", 2)],
    );
    assert_eq!(result.err(), Some(DistributorError::DuplicateInitialWeight));
}

#[test]
fn overflowing_distribution_is_rejected_whole() {
    let mut ledger = instantiate_with(None, vec![member("user", 1)]);
    distribute_native(&mut ledger, &[coin(1, LUNA)]).unwrap();
    let before = ledger.global_index(&LUNA.to_string());
    let result = distribute_native(&mut ledger, &[coin(5, LUNA), coin(u128::MAX, "uatom")]);
    assert_eq!(result, Err(DistributorError::Overflow));
    assert_eq!(ledger.global_index(&LUNA.to_string()), before);
    assert_eq!(ledger.global_indices.len(), 1);
}

#[test]
fn migrate_changes_membership_source() {
    let mut ledger = instantiate_default();
    migrate(&mut ledger, MigrateMsg { new_hook_src: "new_source".to_string() }).unwrap();
    assert_eq!(
        update_user_weights(&mut ledger, SQUAD_CONTRACT, vec![("user", Some(1))]),
        Err(DistributorError::Unauthorized)
    );
    update_user_weights(&mut ledger, "new_source", vec![("user", Some(1))]).unwrap();
    assert_eq!(ledger.total_weight, 1);
}

#[test]
fn accrual_engine_values() {
    let one: u128 = 1_000_000_000_000_000_000;
    assert_eq!(calculate_new_user_reward(5 * one / 2, one, 3), Ok(4));
    assert_eq!(calculate_user_reward(5 * one / 2, Some((one, 7)), 3), Ok(11));
    assert_eq!(calculate_user_reward(2 * one, None, 3), Ok(6));
    assert_eq!(calculate_new_user_reward(u128::MAX, 0, u128::MAX), Err(DistributorError::Overflow));
}

#[test]
fn effective_weight_floor() {
    assert_eq!(calculate_effective_weight(4, 5), 0);
    assert_eq!(calculate_effective_weight(5, 5), 5);
    assert_eq!(calculate_effective_weight(7, 0), 7);
}

#[test]
fn dedup_keeps_first_occurrences_in_order() {
    let v = vec!["b".to_string(), "a".to_string(), "b".to_string(), "c".to_string(), "a".to_string()];
    assert_eq!(dedup_native_denoms(v), vec!["b".to_string(), "a".to_string(), "c".to_string()]);
}

#[test]
fn reweight_at_same_weight_keeps_claimable() {
    let mut ledger = instantiate_with(None, vec![member("user1", 3), member("user2", 4)]);
    distribute_native(&mut ledger, &[coin(70, LUNA), coin(10, "uatom")]).unwrap();
    let before = user_rewards(&ledger, "user1", None);
    update_user_weights(&mut ledger, SQUAD_CONTRACT, vec![("user1", Some(3))]).unwrap();
    assert_eq!(user_rewards(&ledger, "user1", None), before);
    assert_eq!(before, vec![native_reward("uatom", 4), native_reward(LUNA, 30)]);
}

#[test]
fn rejoining_user_starts_from_current_index() {
    let mut ledger = instantiate_with(None, vec![member("user1", 1), member("user2", 1)]);
    update_user_weights(&mut ledger, SQUAD_CONTRACT, vec![("user1", None)]).unwrap();
    distribute_native(&mut ledger, &[coin(100, LUNA)]).unwrap();
    update_user_weights(&mut ledger, SQUAD_CONTRACT, vec![("user1", Some(5))]).unwrap();
    assert_eq!(user_rewards(&ledger, "user1", Some(vec![LUNA])), vec![native_reward(LUNA, 0)]);
    assert_eq!(user_rewards(&ledger, "user2", Some(vec![LUNA])), vec![native_reward(LUNA, 100)]);
}

#[test]
fn default_denoms_are_listed_in_ascending_order() {
    let mut ledger = instantiate_with(None, vec![member("user1", 1)]);
    distribute_native(&mut ledger, &[coin(10, "uusd")]).unwrap();
    distribute_native(&mut ledger, &[coin(20, LUNA), coin(30, "uatom")]).unwrap();
    assert_eq!(
        user_rewards(&ledger, "user1", None),
        vec![native_reward("uatom", 30), native_reward(LUNA, 20), native_reward("uusd", 10)]
    );
    let denoms: Vec<&str> = ledger.global_indices.iter().map(|i| i.denom.as_str()).collect();
    assert_eq!(denoms, vec!["uatom", LUNA, "uusd"]);
}

#[test]
fn returning_user_keeps_pending_rewards_but_earns_nothing_while_away() {
    let mut ledger = instantiate_with(None, vec![member("user1", 1), member("user2", 1)]);
    distribute_native(&mut ledger, &[coin(100, LUNA)]).unwrap();
    update_user_weights(&mut ledger, SQUAD_CONTRACT, vec![("user1", None)]).unwrap();
    distribute_native(&mut ledger, &[coin(100, LUNA)]).unwrap();
    update_user_weights(&mut ledger, SQUAD_CONTRACT, vec![("user1", Some(1))]).unwrap();
    assert_eq!(user_rewards(&ledger, "user1", Some(vec![LUNA])), vec![native_reward(LUNA, 50)]);
    distribute_native(&mut ledger, &[coin(100, LUNA)]).unwrap();
    assert_eq!(user_rewards(&ledger, "user1", Some(vec![LUNA])), vec![native_reward(LUNA, 100)]);
    assert_eq!(user_rewards(&ledger, "user2", Some(vec![LUNA])), vec![native_reward(LUNA, 200)]);
}

#[test]
fn well_formedness_check() {
    let mut ledger = instantiate_with(Some(2), vec![member("user1", 1), member("user2", 3)]);
    distribute_native(&mut ledger, &[coin(10, LUNA)]).unwrap();
    claim(&mut ledger, "user2", None).unwrap();
    assert!(ledger.is_well_formed());
    ledger.total_weight += 1;
    assert!(!ledger.is_well_formed());
    ledger.total_weight -= 1;
    ledger.global_indices.push(funds_distributor::state::GlobalIndex { denom: "uatom".to_string(), index: 0 });
    assert!(!ledger.is_well_formed());
}
