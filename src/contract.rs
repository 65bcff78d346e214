//! The ledger's operations as its owner invokes them.

use crate::api::{
    BankSend, Coin, ExecuteMsg, InstantiateMsg, Member, MigrateMsg, QueryMsg, QueryResponse,
    };
use crate::claim::{claim_denoms, is_normalized};
use crate::distributing::distribute_spec;
use crate::eligibility::update_minimum_eligible_weight_spec;
use crate::error::DistributorError;
use crate::rewards::{ascending_rewards, requested_denoms, rewards_match, rewards_overflow};
use crate::state::{Ledger, LedgerState};
use crate::user_weights::{seed_members, update_user_weights_spec};
use vstd::prelude::*;

verus! {

/// A ledger with no participants and no distributions.
pub open spec fn empty_ledger(squad_contract: Seq<char>, minimum_eligible_weight: u128) -> LedgerState {
    LedgerState {
        squad_contract,
        minimum_eligible_weight,
        total_weight: 0,
        weights: Seq::empty(),
        indices: Seq::empty(),
        distributions: Seq::empty(),
    }
}

/// The eligibility floor an instantiation asks for; zero when none is given.
pub open spec fn minimum_of(msg: InstantiateMsg) -> u128 {
    match msg.minimum_eligible_weight {
        Some(m) => m,
        None => 0,
    }
}

impl Ledger {
    pub fn new(squad_contract: String, minimum_eligible_weight: u128) -> (r: Ledger)
        ensures
            r@ == empty_ledger(squad_contract@, minimum_eligible_weight),
            r@.wf(),
    {
        let r = Ledger {
            squad_contract,
            minimum_eligible_weight,
            total_weight: 0,
            user_weights: Vec::new(),
            global_indices: Vec::new(),
            distributions: Vec::new(),
        };
        assert(r@.weights =~= Seq::empty());
        assert(r@.indices =~= Seq::empty());
        assert(r@.distributions =~= Seq::empty());
        r
    }
}

/// Creates the ledger, with the membership source's current members as its participants.
pub fn instantiate(msg: InstantiateMsg, initial_weights: &Vec<Member>) -> (r: Result<
    Ledger,
    DistributorError,
>)
    ensures
        match seed_members(empty_ledger(msg.squad_contract@, minimum_of(msg)), initial_weights@) {
            Ok(s) => r matches Ok(l) && l@ == s && l@.wf(),
            Err(e) => r == Err::<Ledger, DistributorError>(e),
        },
{
    let minimum_eligible_weight = match msg.minimum_eligible_weight {
        Some(m) => m,
        None => 0,
    };
    let mut ledger = Ledger::new(msg.squad_contract, minimum_eligible_weight);
    match ledger.save_initial_weights(initial_weights) {
        Ok(()) => Ok(ledger),
        Err(e) => Err(e),
    }
}

/// Performs one operation sent by `sender` with `funds` attached; a claim returns the transfer
/// to perform. On an error the ledger is unchanged.
pub fn execute(ledger: &mut Ledger, sender: &String, funds: &Vec<Coin>, msg: ExecuteMsg) -> (r:
    Result<Option<BankSend>, DistributorError>)
    requires
        old(ledger)@.wf(),
    ensures
        final(ledger)@.wf(),
        r is Err ==> final(ledger)@ == old(ledger)@,
        match msg {
            ExecuteMsg::MemberChangedHook(m) => update_user_weights_spec(
                old(ledger)@,
                sender@,
                m.diffs@,
            ) == match r {
                Ok(_) => Ok(final(ledger)@),
                Err(e) => Err::<LedgerState, DistributorError>(e),
            } && (r matches Ok(x) ==> x is None),
            ExecuteMsg::UpdateMinimumEligibleWeight(m) => update_minimum_eligible_weight_spec(
                old(ledger)@,
                sender@,
                m.minimum_eligible_weight,
            ) == match r {
                Ok(_) => Ok(final(ledger)@),
                Err(e) => Err::<LedgerState, DistributorError>(e),
            } && (r matches Ok(x) ==> x is None),
            ExecuteMsg::DistributeNative {  } => distribute_spec(old(ledger)@, funds@) == match r {
                Ok(_) => Ok(final(ledger)@),
                Err(e) => Err::<LedgerState, DistributorError>(e),
            } && (r matches Ok(x) ==> x is None),
            ExecuteMsg::ClaimRewards(m) => match claim_denoms(
                old(ledger)@,
                m.user,
                requested_denoms(old(ledger)@, m.native_denoms),
            ) {
                Some((ds, coins)) => r matches Ok(Some(send)) && send.to_address@ == m.user@
                    && is_normalized(send.amount@, coins) && final(ledger)@ == (LedgerState {
                    distributions: ds,
                    ..old(ledger)@
                }),
                None => r == Err::<Option<BankSend>, DistributorError>(DistributorError::Overflow),
            },
        },
{
    match msg {
        ExecuteMsg::MemberChangedHook(m) => match ledger.update_user_weights(sender, &m) {
            Ok(()) => Ok(None),
            Err(e) => Err(e),
        },
        ExecuteMsg::UpdateMinimumEligibleWeight(m) => match ledger.update_minimum_eligible_weight(
            sender,
            &m,
        ) {
            Ok(()) => Ok(None),
            Err(e) => Err(e),
        },
        ExecuteMsg::DistributeNative {  } => match ledger.distribute_native(funds) {
            Ok(()) => Ok(None),
            Err(e) => Err(e),
        },
        ExecuteMsg::ClaimRewards(m) => match ledger.claim_rewards(&m) {
            Ok(send) => Ok(Some(send)),
            Err(e) => Err(e),
        },
    }
}

/// Answers a query; nothing in the ledger changes.
pub fn query(ledger: &Ledger, msg: &QueryMsg) -> (r: Result<QueryResponse, DistributorError>)
    requires
        ledger@.wf(),
    ensures
        match msg {
            QueryMsg::UserRewards(params) => match r {
                Ok(QueryResponse::UserRewards(resp)) => rewards_match(
                    ledger@,
                    *params,
                    resp.native_rewards@,
                ) && (params.native_denoms is None ==> ascending_rewards(resp.native_rewards@)),
                Ok(_) => false,
                Err(e) => e == DistributorError::Overflow && rewards_overflow(ledger@, *params),
            },
            QueryMsg::MinimumEligibleWeight {  } => r matches Ok(
                QueryResponse::MinimumEligibleWeight(resp),
            ) && resp.minimum_eligible_weight == ledger.minimum_eligible_weight,
        },
{
    match msg {
        QueryMsg::UserRewards(params) => match ledger.query_user_rewards(params) {
            Ok(resp) => Ok(QueryResponse::UserRewards(resp)),
            Err(e) => Err(e),
        },
        QueryMsg::MinimumEligibleWeight {  } => Ok(
            QueryResponse::MinimumEligibleWeight(ledger.query_minimum_eligible_weight()),
        ),
    }
}

/// Points the ledger at a new membership source.
pub fn migrate(ledger: &mut Ledger, msg: MigrateMsg) -> (r: Result<(), DistributorError>)
    ensures
        r is Ok,
        final(ledger)@ == (LedgerState { squad_contract: msg.new_hook_src@, ..old(ledger)@ }),
{
    ledger.squad_contract = msg.new_hook_src;
    Ok(())
}

} // verus!
