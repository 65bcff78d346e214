//! The eligibility floor: participants whose weight is below it hold no effective weight.

use crate::api::{MinimumEligibleWeightResponse, UpdateMinimumEligibleWeightMsg};
use crate::error::DistributorError;
use crate::state::{
    effective_weight, lemma_sum_effective_nonneg, lemma_sum_prefix_bound, settled_within, sum_effective,
    unique_distributions, GlobalIndex, Ledger, LedgerState, NativeDistribution, UserWeightRecord,
};
use crate::user_weights::{calculate_effective_weight, lemma_settle_user, settle_user};
use vstd::prelude::*;

verus! {

/// The settlements after every participant of `ws` in turn is settled at their effective
/// weight, or `None` when a pending amount would not fit in 128 bits.
pub open spec fn settle_all(
    ds: Seq<NativeDistribution>,
    ix: Seq<GlobalIndex>,
    ws: Seq<UserWeightRecord>,
) -> Option<Seq<NativeDistribution>>
    decreases ws.len(),
{
    if ws.len() == 0 {
        Some(ds)
    } else {
        match settle_all(ds, ix, ws.drop_last()) {
            Some(prev) => settle_user(prev, ix, ws.last().user, ws.last().effective_weight),
            None => None,
        }
    }
}

/// The weight records with effective weights recomputed against `minimum`.
pub open spec fn refloored(ws: Seq<UserWeightRecord>, minimum: u128) -> Seq<UserWeightRecord> {
    ws.map_values(
        |w: UserWeightRecord|
            UserWeightRecord {
                user: w.user,
                weight: w.weight,
                effective_weight: effective_weight(w.weight as int, minimum as int) as u128,
            },
    )
}

/// The ledger after `sender` sets the eligibility floor to `minimum`: everyone's accrual is
/// first settled at their current effective weight, then effective weights and the total are
/// recomputed.
pub open spec fn update_minimum_eligible_weight_spec(
    s: LedgerState,
    sender: Seq<char>,
    minimum: u128,
) -> Result<LedgerState, DistributorError> {
    if sender != s.squad_contract {
        Err(DistributorError::Unauthorized)
    } else {
        match settle_all(s.distributions, s.indices, s.weights) {
            None => Err(DistributorError::Overflow),
            Some(ds) => {
                let ws = refloored(s.weights, minimum);
                if sum_effective(ws) > u128::MAX {
                    Err(DistributorError::Overflow)
                } else {
                    Ok(
                        LedgerState {
                            minimum_eligible_weight: minimum,
                            weights: ws,
                            total_weight: sum_effective(ws) as u128,
                            distributions: ds,
                            ..s
                        },
                    )
                }
            },
        }
    }
}

proof fn lemma_settle_all_stays_none(
    ds: Seq<NativeDistribution>,
    ix: Seq<GlobalIndex>,
    ws: Seq<UserWeightRecord>,
    n: int,
)
    requires
        0 <= n <= ws.len(),
        settle_all(ds, ix, ws.take(n)) is None,
    ensures
        settle_all(ds, ix, ws) is None,
    decreases ws.len() - n,
{
    if n < ws.len() {
        assert(ws.take(n + 1).drop_last() =~= ws.take(n));
        lemma_settle_all_stays_none(ds, ix, ws, n + 1);
    } else {
        assert(ws.take(n) =~= ws);
    }
}

impl Ledger {
    /// Sets the eligibility floor, all or nothing. Only the membership source may do so.
    pub fn update_minimum_eligible_weight(
        &mut self,
        sender: &String,
        msg: &UpdateMinimumEligibleWeightMsg,
    ) -> (r: Result<(), DistributorError>)
        requires
            old(self)@.wf(),
        ensures
            final(self)@.wf(),
            update_minimum_eligible_weight_spec(
                old(self)@,
                sender@,
                msg.minimum_eligible_weight,
            ) == match r {
                Ok(_) => Ok(final(self)@),
                Err(e) => Err::<LedgerState, DistributorError>(e),
            },
            r is Err ==> final(self)@ == old(self)@,
    {
        if !(*sender == self.squad_contract) {
            return Err(DistributorError::Unauthorized);
        }
        let ghost start = self@;
        let mut next = self.duplicate();
        let n = self.user_weights.len();
        let mut i: usize = 0;
        assert(start.weights.take(0) =~= Seq::<UserWeightRecord>::empty());
        while i < n
            invariant
                0 <= i <= n == start.weights.len(),
                start == old(self)@,
                self@ == start,
                start.wf(),
                sender@ == start.squad_contract,
                settle_all(start.distributions, start.indices, start.weights.take(i as int))
                    == Some(next@.distributions),
                next@ == (LedgerState { distributions: next@.distributions, ..start }),
                unique_distributions(next@.distributions),
                forall|k: int|
                    0 <= k < next@.distributions.len() ==> settled_within(
                        start.indices,
                        #[trigger] next@.distributions[k],
                    ),
            decreases n - i,
        {
            let user = &self.user_weights[i].user;
            let weight = self.user_weights[i].effective_weight;
            proof {
                assert(start.weights.take(i + 1).drop_last() =~= start.weights.take(i as int));
                assert(start.weights.take(i + 1).last() == start.weights[i as int]);
                assert(start.indices.take(start.indices.len() as int) =~= start.indices);
            }
            match next.update_user_native_distributions(user, weight) {
                Ok(()) => {},
                Err(e) => {
                    proof {
                        lemma_settle_all_stays_none(
                            start.distributions,
                            start.indices,
                            start.weights,
                            i + 1,
                        );
                    }
                    return Err(e);
                },
            }
            proof {
                lemma_settle_user(
                    settle_all(start.distributions, start.indices, start.weights.take(i as int)).unwrap(),
                    start.indices,
                    start.indices.len() as int,
                    *user,
                    weight,
                );
            }
            i += 1;
        }
        assert(start.weights.take(n as int) =~= start.weights);
        let minimum = msg.minimum_eligible_weight;
        let mut weights: Vec<UserWeightRecord> = Vec::new();
        let mut total: u128 = 0;
        let mut j: usize = 0;
        while j < n
            invariant
                0 <= j <= n == start.weights.len(),
                start == old(self)@,
                self@ == start,
                start.wf(),
                sender@ == start.squad_contract,
                minimum == msg.minimum_eligible_weight,
                settle_all(start.distributions, start.indices, start.weights) == Some(
                    next@.distributions,
                ),
                next@ == (LedgerState { distributions: next@.distributions, ..start }),
                unique_distributions(next@.distributions),
                forall|k: int|
                    0 <= k < next@.distributions.len() ==> settled_within(
                        start.indices,
                        #[trigger] next@.distributions[k],
                    ),
                weights@ == refloored(start.weights.take(j as int), minimum),
                total == sum_effective(weights@),
            decreases n - j,
        {
            let w = &self.user_weights[j];
            let eff = calculate_effective_weight(w.weight, minimum);
            proof {
                assert(refloored(start.weights.take(j + 1), minimum).drop_last() =~= refloored(
                    start.weights.take(j as int),
                    minimum,
                ));
                lemma_sum_effective_nonneg(refloored(start.weights, minimum));
            }
            let sum = match total.checked_add(eff) {
                Some(t) => t,
                None => {
                    proof {
                        lemma_sum_prefix_bound(refloored(start.weights, minimum), j + 1);
                        assert(refloored(start.weights, minimum).take(j + 1) =~= refloored(
                            start.weights.take(j + 1),
                            minimum,
                        ));
                    }
                    return Err(DistributorError::Overflow);
                },
            };
            weights.push(UserWeightRecord { user: w.user.clone(), weight: w.weight, effective_weight: eff });
            total = sum;
            j += 1;
            proof {
                assert(weights@ =~= refloored(start.weights.take(j as int), minimum));
            }
        }
        assert(start.weights.take(n as int) =~= start.weights);
        proof {
            let ws = refloored(start.weights, minimum);
            assert forall|a: int, b: int|
                0 <= a < ws.len() && 0 <= b < ws.len() && (#[trigger] ws[a]).user@ == (#[trigger] ws[b]).user@
                implies a == b by {
                assert(start.weights[a].user@ == start.weights[b].user@);
            }
        }
        next.minimum_eligible_weight = minimum;
        next.user_weights = weights;
        next.total_weight = total;
        *self = next;
        Ok(())
    }

    /// The current eligibility floor.
    pub fn query_minimum_eligible_weight(&self) -> (r: MinimumEligibleWeightResponse)
        ensures
            r.minimum_eligible_weight == self.minimum_eligible_weight,
    {
        MinimumEligibleWeightResponse { minimum_eligible_weight: self.minimum_eligible_weight }
    }
}

} // verus!
