//! Distributions: raising the global index of each denomination that funds arrive in.

use crate::api::Coin;
use crate::decimal::{decimal_from_ratio, ratio_atomics};
use crate::error::DistributorError;
use crate::state::{index_of, lemma_raise_index, set_index, GlobalIndex, Ledger, LedgerState};
use vstd::prelude::*;

verus! {

/// The indices after `fund` is spread over `total_weight`, or `None` when an index would not fit
/// in 128 bits.
pub open spec fn apply_fund(ix: Seq<GlobalIndex>, fund: Coin, total_weight: u128) -> Option<
    Seq<GlobalIndex>,
> {
    let increment = ratio_atomics(fund.amount as int, total_weight as int);
    let next = index_of(ix, fund.denom@) + increment;
    if increment > u128::MAX || next > u128::MAX {
        None
    } else {
        Some(set_index(ix, fund.denom, next as u128))
    }
}

/// The indices after each of `funds` in turn is spread over `total_weight`.
pub open spec fn apply_funds(ix: Seq<GlobalIndex>, funds: Seq<Coin>, total_weight: u128) -> Option<
    Seq<GlobalIndex>,
>
    decreases funds.len(),
{
    if funds.len() == 0 {
        Some(ix)
    } else {
        match apply_funds(ix, funds.drop_last(), total_weight) {
            Some(prev) => apply_fund(prev, funds.last(), total_weight),
            None => None,
        }
    }
}

/// The ledger after a distribution of `funds`, or why it is refused.
pub open spec fn distribute_spec(s: LedgerState, funds: Seq<Coin>) -> Result<
    LedgerState,
    DistributorError,
> {
    if s.total_weight == 0 {
        Err(DistributorError::ZeroTotalWeight)
    } else {
        match apply_funds(s.indices, funds, s.total_weight) {
            Some(ix) => Ok(LedgerState { indices: ix, ..s }),
            None => Err(DistributorError::Overflow),
        }
    }
}

proof fn lemma_apply_funds_stays_none(ix: Seq<GlobalIndex>, funds: Seq<Coin>, total_weight: u128, n: int)
    requires
        0 <= n <= funds.len(),
        apply_funds(ix, funds.take(n), total_weight) is None,
    ensures
        apply_funds(ix, funds, total_weight) is None,
    decreases funds.len() - n,
{
    if n < funds.len() {
        assert(funds.take(n + 1).drop_last() =~= funds.take(n));
        lemma_apply_funds_stays_none(ix, funds, total_weight, n + 1);
    } else {
        assert(funds.take(n) =~= funds);
    }
}

impl Ledger {
    /// Distributes `funds`, already held by the ledger's owner, over the eligible weight: each
    /// denomination's index rises by its amount divided by the total weight.
    pub fn distribute_native(&mut self, funds: &Vec<Coin>) -> (r: Result<(), DistributorError>)
        requires
            old(self)@.wf(),
        ensures
            final(self)@.wf(),
            distribute_spec(old(self)@, funds@) == match r {
                Ok(_) => Ok(final(self)@),
                Err(e) => Err::<LedgerState, DistributorError>(e),
            },
            r is Err ==> final(self)@ == old(self)@,
    {
        let total_weight = self.total_weight;
        if total_weight == 0 {
            return Err(DistributorError::ZeroTotalWeight);
        }
        let mut next = self.duplicate();
        let mut i: usize = 0;
        assert(funds@.take(0) =~= Seq::<Coin>::empty());
        while i < funds.len()
            invariant
                0 <= i <= funds@.len(),
                total_weight == self.total_weight > 0,
                self@.wf(),
                next@.wf(),
                apply_funds(self@.indices, funds@.take(i as int), total_weight) == Some(
                    next@.indices,
                ),
                next@ == (LedgerState { indices: next@.indices, ..self@ }),
            decreases funds@.len() - i,
        {
            let fund = &funds[i];
            proof {
                assert(funds@.take(i + 1).drop_last() =~= funds@.take(i as int));
                assert(funds@.take(i + 1).last() == funds@[i as int]);
            }
            let current = next.global_index(&fund.denom);
            let increment = match decimal_from_ratio(fund.amount, total_weight) {
                Some(v) => v,
                None => {
                    proof {
                        lemma_apply_funds_stays_none(self@.indices, funds@, total_weight, i + 1);
                    }
                    return Err(DistributorError::Overflow);
                },
            };
            let value = match current.checked_add(increment) {
                Some(v) => v,
                None => {
                    proof {
                        lemma_apply_funds_stays_none(self@.indices, funds@, total_weight, i + 1);
                    }
                    return Err(DistributorError::Overflow);
                },
            };
            proof {
                lemma_raise_index(next@, fund.denom, value);
            }
            next.store_index(&fund.denom, value);
            i += 1;
        }
        assert(funds@.take(funds@.len() as int) =~= funds@);
        *self = next;
        Ok(())
    }
}

} // verus!
