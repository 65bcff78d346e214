//! Claims: settling a participant's rewards to zero and asking for them to be sent.

use crate::api::{BankSend, ClaimRewardsMsg, Coin};
use crate::error::DistributorError;
use crate::rewards::{
    calculate_user_reward, distinct_denoms, lemma_dedup_denoms, named_denoms, requested_denoms,
    user_reward,
};
use crate::state::{
    denom_lt,     distribution_of, distribution_pos, effective_weight_of, index_of, lemma_reset_distribution,
    set_distribution, settled_within, Ledger, LedgerState, NativeDistribution,
};
use cw_utils::NativeBalance;
use vstd::prelude::*;

verus! {

pub open spec fn distinct_coin_denoms(coins: Seq<Coin>) -> bool {
    forall|i: int, j: int|
        0 <= i < coins.len() && 0 <= j < coins.len() && (#[trigger] coins[i]).denom@ == (#[trigger] coins[j]).denom@
            ==> i == j
}

/// `coins` is `from` without its zero amounts, sorted by denomination.
pub open spec fn is_normalized(coins: Seq<Coin>, from: Seq<Coin>) -> bool {
    &&& forall|i: int, j: int|
        0 <= i < j < coins.len() ==> denom_lt((#[trigger] coins[i]).denom@, (#[trigger] coins[j]).denom@)
    &&& forall|i: int| 0 <= i < coins.len() ==> (#[trigger] coins[i]).amount > 0
    &&& forall|i: int|
        0 <= i < coins.len() ==> exists|j: int|
            0 <= j < from.len() && (#[trigger] from[j]).denom@ == (#[trigger] coins[i]).denom@
                && from[j].amount == coins[i].amount
    &&& forall|j: int|
        0 <= j < from.len() && (#[trigger] from[j]).amount > 0 ==> exists|i: int|
            0 <= i < coins.len() && (#[trigger] coins[i]).denom@ == from[j].denom@
                && coins[i].amount == from[j].amount
}

/// Relies on `cw_utils::NativeBalance::normalize`: it drops zero amounts, sorts by denomination
/// and merges equal denominations, of which `coins` has none.
#[verifier::external_body]
fn normalize_coins(coins: Vec<Coin>) -> (r: Vec<Coin>)
    requires
        distinct_coin_denoms(coins@),
    ensures
        is_normalized(r@, coins@),
{
    let mut balance = NativeBalance(
        coins.into_iter().map(|c| cosmwasm_std::coin(c.amount, c.denom)).collect(),
    );
    balance.normalize();
    balance.into_vec().into_iter().map(|c| Coin { denom: c.denom, amount: c.amount.u128() }).collect()
}

/// The settlements after `user` claims each of `denoms` in turn, with what each claim pays;
/// `None` when an amount would not fit in 128 bits. A denomination never distributed is
/// skipped.
pub open spec fn claim_denoms(s: LedgerState, user: String, denoms: Seq<String>) -> Option<
    (Seq<NativeDistribution>, Seq<Coin>),
>
    decreases denoms.len(),
{
    if denoms.len() == 0 {
        Some((s.distributions, Seq::empty()))
    } else {
        match claim_denoms(s, user, denoms.drop_last()) {
            None => None,
            Some((ds, coins)) => {
                let d = denoms.last();
                let g = index_of(s.indices, d@);
                if g == 0 {
                    Some((ds, coins))
                } else {
                    let reward = user_reward(
                        g,
                        distribution_of(ds, user@, d@),
                        effective_weight_of(s.weights, user@),
                    );
                    if reward > u128::MAX {
                        None
                    } else {
                        Some(
                            (
                                set_distribution(ds, user, d, g as u128, 0),
                                coins.push(Coin { denom: d, amount: reward as u128 }),
                            ),
                        )
                    }
                }
            },
        }
    }
}

proof fn lemma_claim_denoms_stays_none(s: LedgerState, user: String, denoms: Seq<String>, n: int)
    requires
        0 <= n <= denoms.len(),
        claim_denoms(s, user, denoms.take(n)) is None,
    ensures
        claim_denoms(s, user, denoms) is None,
    decreases denoms.len() - n,
{
    if n < denoms.len() {
        assert(denoms.take(n + 1).drop_last() =~= denoms.take(n));
        lemma_claim_denoms_stays_none(s, user, denoms, n + 1);
    } else {
        assert(denoms.take(n) =~= denoms);
    }
}

impl Ledger {
    /// Claims `msg.user`'s rewards in the requested denominations (all with an index when none
    /// are named): each settlement is reset to the current index with nothing pending, and
    /// what was claimable is returned as one transfer to the user, zero amounts left out.
    pub fn claim_rewards(&mut self, msg: &ClaimRewardsMsg) -> (r: Result<BankSend, DistributorError>)
        requires
            old(self)@.wf(),
        ensures
            final(self)@.wf(),
            match claim_denoms(
                old(self)@,
                msg.user,
                requested_denoms(old(self)@, msg.native_denoms),
            ) {
                Some((ds, coins)) => r matches Ok(send) && send.to_address@ == msg.user@
                    && is_normalized(send.amount@, coins) && final(self)@ == (LedgerState {
                    distributions: ds,
                    ..old(self)@
                }),
                None => r == Err::<BankSend, DistributorError>(DistributorError::Overflow)
                    && final(self)@ == old(self)@,
            },
    {
        let ghost start = self@;
        let denoms = self.requested_denoms(&msg.native_denoms);
        proof {
            lemma_dedup_denoms(named_denoms(start, msg.native_denoms));
        }
        let user_weight = self.effective_weight(&msg.user);
        let mut next = self.duplicate();
        let mut coins: Vec<Coin> = Vec::new();
        let mut i: usize = 0;
        assert(denoms@.take(0) =~= Seq::<String>::empty());
        while i < denoms.len()
            invariant
                0 <= i <= denoms@.len(),
                start == old(self)@,
                self@ == start,
                start.wf(),
                next@.wf(),
                distinct_denoms(denoms@),
                denoms@ == requested_denoms(start, msg.native_denoms),
                user_weight == effective_weight_of(start.weights, msg.user@),
                claim_denoms(start, msg.user, denoms@.take(i as int)) == Some(
                    (next@.distributions, coins@),
                ),
                next@ == (LedgerState { distributions: next@.distributions, ..start }),
                distinct_coin_denoms(coins@),
                forall|k: int|
                    0 <= k < coins@.len() ==> exists|j: int|
                        0 <= j < i && (#[trigger] denoms@[j])@ == (#[trigger] coins@[k]).denom@,
            decreases denoms@.len() - i,
        {
            let denom = &denoms[i];
            proof {
                assert(denoms@.take(i + 1).drop_last() =~= denoms@.take(i as int));
                assert(denoms@.take(i + 1).last() == denoms@[i as int]);
            }
            let global_index = next.global_index(denom);
            if global_index != 0 {
                let prior = next.distribution(&msg.user, denom);
                proof {
                    if let Some((l, p)) = prior {
                        let k = distribution_pos(next@.distributions, msg.user@, denom@);
                        assert(settled_within(next@.indices, next@.distributions[k]));
                    }
                }
                let reward = match calculate_user_reward(global_index, prior, user_weight) {
                    Ok(v) => v,
                    Err(_) => {
                        proof {
                            assert(next@.indices == start.indices);
                            assert(claim_denoms(start, msg.user, denoms@.take(i + 1)) is None);
                            lemma_claim_denoms_stays_none(start, msg.user, denoms@, i + 1);
                        }
                        return Err(DistributorError::Overflow);
                    },
                };
                proof {
                    lemma_reset_distribution(next@, msg.user, *denom);
                    assert forall|k: int| 0 <= k < coins@.len() implies (#[trigger] coins@[k]).denom@ != denom@ by {
                        if coins@[k].denom@ == denom@ {
                            let j = choose|j: int| 0 <= j < i && (#[trigger] denoms@[j])@ == coins@[k].denom@;
                            assert(denoms@[j]@ == denoms@[i as int]@);
                        }
                    }
                }
                next.store_distribution(&msg.user, denom, global_index, 0);
                let ghost before = coins@;
                coins.push(Coin { denom: denom.clone(), amount: reward });
                proof {
                    assert forall|k: int| 0 <= k < coins@.len() implies exists|j: int|
                        0 <= j < i + 1 && (#[trigger] denoms@[j])@ == (#[trigger] coins@[k]).denom@ by {
                        if k < before.len() {
                            let j = choose|j: int| 0 <= j < i && (#[trigger] denoms@[j])@ == before[k].denom@;
                            assert(denoms@[j]@ == coins@[k].denom@);
                        } else {
                            assert(denoms@[i as int]@ == coins@[k].denom@);
                        }
                    }
                    assert forall|a: int, b: int| 0 <= a < coins@.len() && 0 <= b < coins@.len()
                        && (#[trigger] coins@[a]).denom@ == (#[trigger] coins@[b]).denom@ implies a == b by {
                        if a < before.len() && b < before.len() {
                            assert(before[a].denom@ == before[b].denom@);
                        }
                    }
                }
            }
            i += 1;
        }
        assert(denoms@.take(denoms@.len() as int) =~= denoms@);
        let amount = normalize_coins(coins);
        *self = next;
        Ok(BankSend { to_address: msg.user.clone(), amount })
    }
}

} // verus!
