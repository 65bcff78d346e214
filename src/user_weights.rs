//! Weight changes: settling a participant's accrual at their old weight, then changing it.

use crate::api::{Member, MemberDiff, UpdateUserWeightsMsg};
use crate::error::DistributorError;
use crate::rewards::{calculate_user_reward, user_reward};
use crate::state::{
    denom_pos, distribution_of, effective_weight, effective_weight_of, has_denom, has_user,
    index_of, lemma_denom_pos, lemma_effective_within_sum, lemma_remove_weight,
    lemma_set_distribution, lemma_set_weight, remove_weight, set_distribution, set_weight,
    settled_within, unique_denoms, unique_distributions, GlobalIndex, Ledger, LedgerState,
    NativeDistribution, UserWeightRecord,
};
use vstd::prelude::*;

verus! {

/// The settlements after `user`'s are brought up to each index of `ix` in turn, or `None`
/// when a pending amount would not fit in 128 bits.
pub open spec fn settle_user(
    ds: Seq<NativeDistribution>,
    ix: Seq<GlobalIndex>,
    user: String,
    weight: u128,
) -> Option<Seq<NativeDistribution>>
    decreases ix.len(),
{
    if ix.len() == 0 {
        Some(ds)
    } else {
        match settle_user(ds, ix.drop_last(), user, weight) {
            Some(prev) => {
                let e = ix.last();
                let pending = user_reward(e.index as int, distribution_of(prev, user@, e.denom@), weight as int);
                if pending > u128::MAX {
                    None
                } else {
                    Some(set_distribution(prev, user, e.denom, e.index, pending as u128))
                }
            },
            None => None,
        }
    }
}

/// Settling `user` against the first `n` indices of `ix` touches their settlements in those
/// denominations alone, and keeps every settlement within its index.
pub proof fn lemma_settle_user(
    ds: Seq<NativeDistribution>,
    ix: Seq<GlobalIndex>,
    n: int,
    user: String,
    weight: u128,
)
    requires
        0 <= n <= ix.len(),
        unique_denoms(ix),
        unique_distributions(ds),
        forall|i: int| 0 <= i < ds.len() ==> settled_within(ix, #[trigger] ds[i]),
        settle_user(ds, ix.take(n), user, weight) is Some,
    ensures
        ({
            let r = settle_user(ds, ix.take(n), user, weight).unwrap();
            &&& unique_distributions(r)
            &&& forall|i: int| 0 <= i < r.len() ==> settled_within(ix, #[trigger] r[i])
            &&& forall|d: Seq<char>|
                has_denom(ix, d) && denom_pos(ix, d) < n ==> 0 <= #[trigger] user_reward(index_of(ix, d), distribution_of(ds, user@, d), weight as int) <= u128::MAX
            &&& forall|u: Seq<char>, d: Seq<char>| #[trigger]
                distribution_of(r, u, d) == if u == user@ && has_denom(ix, d) && denom_pos(ix, d)
                    < n {
                    Some(
                        (
                            index_of(ix, d) as u128,
                            user_reward(index_of(ix, d), distribution_of(ds, u, d), weight as int)
                                as u128,
                        ),
                    )
                } else {
                    distribution_of(ds, u, d)
                }
        }),
    decreases n,
{
    if n == 0 {
        assert(ix.take(0) =~= Seq::<GlobalIndex>::empty());
        assert forall|u: Seq<char>, d: Seq<char>| #[trigger]
            distribution_of(ds, u, d) == if u == user@ && has_denom(ix, d) && denom_pos(ix, d) < 0 {
                Some(
                    (
                        index_of(ix, d) as u128,
                        user_reward(index_of(ix, d), distribution_of(ds, u, d), weight as int) as u128,
                    ),
                )
            } else {
                distribution_of(ds, u, d)
            } by {}
    } else {
        let m = n - 1;
        assert(ix.take(n).drop_last() =~= ix.take(m));
        assert(ix.take(n).last() == ix[m]);
        lemma_settle_user(ds, ix, m, user, weight);
        let prev = settle_user(ds, ix.take(m), user, weight).unwrap();
        let e = ix[m];
        lemma_denom_pos(ix, m);
        let prior = distribution_of(prev, user@, e.denom@);
        assert(prior == distribution_of(ds, user@, e.denom@));
        let pending = user_reward(e.index as int, prior, weight as int);
        {
            let w = weight;
            let (l, p) = match prior {
                Some((l, p)) => {
                    let k = crate::state::distribution_pos(ds, user@, e.denom@);
                    assert(settled_within(ix, ds[k]));
                    (l as int, p as int)
                },
                None => (0int, 0int),
            };
            let g = e.index as int;
            assert(pending >= 0) by (nonlinear_arith)
                requires
                    pending == (g - l) * w / (crate::decimal::DECIMAL_FRACTIONAL as int) + p,
                    l <= g,
                    p >= 0,
                    w >= 0,
            ;
        }
        assert forall|d: Seq<char>|
            has_denom(ix, d) && denom_pos(ix, d) < n implies 0 <= #[trigger] user_reward(index_of(ix, d), distribution_of(ds, user@, d), weight as int) <= u128::MAX by {
            let q = denom_pos(ix, d);
            lemma_denom_pos(ix, q);
        }
        let r = set_distribution(prev, user, e.denom, e.index, pending as u128);
        lemma_set_distribution(prev, user, e.denom, e.index, pending as u128);
        if e.index == 0 {
            match prior {
                Some((l, p)) => {
                    let k = crate::state::distribution_pos(ds, user@, e.denom@);
                    assert(settled_within(ix, ds[k]));
                },
                None => {},
            }
            assert(pending == 0) by (nonlinear_arith)
                requires
                    pending == user_reward(0, prior, weight as int),
                    prior matches Some((l, p)) ==> l == 0 && p == 0,
            {
            }
        }
        assert forall|i: int| 0 <= i < r.len() implies settled_within(ix, #[trigger] r[i]) by {
            let x = r[i];
            if !(x.user@ == user@ && x.denom@ == e.denom@ && x.user_index == e.index
                && x.pending_rewards == pending) {
                let k = choose|k: int| 0 <= k < prev.len() && #[trigger] prev[k] == x;
                assert(settled_within(ix, prev[k]));
            }
        }
        assert forall|u: Seq<char>, d: Seq<char>| #[trigger]
            distribution_of(r, u, d) == if u == user@ && has_denom(ix, d) && denom_pos(ix, d) < n {
                Some(
                    (
                        index_of(ix, d) as u128,
                        user_reward(index_of(ix, d), distribution_of(ds, u, d), weight as int) as u128,
                    ),
                )
            } else {
                distribution_of(ds, u, d)
            } by {
            assert(distribution_of(prev, u, d) == if u == user@ && has_denom(ix, d) && denom_pos(
                ix,
                d,
            ) < m {
                Some(
                    (
                        index_of(ix, d) as u128,
                        user_reward(index_of(ix, d), distribution_of(ds, u, d), weight as int) as u128,
                    ),
                )
            } else {
                distribution_of(ds, u, d)
            });
            if has_denom(ix, d) {
                let q = denom_pos(ix, d);
                lemma_denom_pos(ix, q);
            }
        }
    }
}

proof fn lemma_settle_user_stays_none(
    ds: Seq<NativeDistribution>,
    ix: Seq<GlobalIndex>,
    n: int,
    user: String,
    weight: u128,
)
    requires
        0 <= n <= ix.len(),
        settle_user(ds, ix.take(n), user, weight) is None,
    ensures
        settle_user(ds, ix, user, weight) is None,
    decreases ix.len() - n,
{
    if n < ix.len() {
        assert(ix.take(n + 1).drop_last() =~= ix.take(n));
        lemma_settle_user_stays_none(ds, ix, n + 1, user, weight);
    } else {
        assert(ix.take(n) =~= ix);
    }
}

impl Ledger {
    /// Brings `user`'s settlement for every denomination with an index up to that index, moving
    /// what they accrued at `weight` (zero for a participant the ledger does not know) into
    /// their pending amount. A missing settlement starts from the current index with nothing
    /// pending.
    pub fn update_user_native_distributions(&mut self, user: &String, weight: u128) -> (r:
        Result<(), DistributorError>)
        requires
            unique_denoms(old(self)@.indices),
            unique_distributions(old(self)@.distributions),
            forall|i: int|
                0 <= i < old(self)@.distributions.len() ==> settled_within(
                    old(self)@.indices,
                    #[trigger] old(self)@.distributions[i],
                ),
        ensures
            match settle_user(old(self)@.distributions, old(self)@.indices, *user, weight) {
                Some(ds) => r is Ok && final(self)@ == (LedgerState {
                    distributions: ds,
                    ..old(self)@
                }),
                None => r == Err::<(), DistributorError>(DistributorError::Overflow),
            },
    {
        let ghost start = self@;
        let n = self.global_indices.len();
        let mut i: usize = 0;
        assert(start.indices.take(0) =~= Seq::<GlobalIndex>::empty());
        while i < n
            invariant
                0 <= i <= n == start.indices.len(),
                start == old(self)@,
                unique_denoms(start.indices),
                unique_distributions(start.distributions),
                forall|k: int|
                    0 <= k < start.distributions.len() ==> settled_within(
                        start.indices,
                        #[trigger] start.distributions[k],
                    ),
                settle_user(start.distributions, start.indices.take(i as int), *user, weight)
                    == Some(self@.distributions),
                self@ == (LedgerState { distributions: self@.distributions, ..start }),
            decreases n - i,
        {
            proof {
                lemma_settle_user(start.distributions, start.indices, i as int, *user, weight);
                assert(start.indices.take(i + 1).drop_last() =~= start.indices.take(i as int));
                assert(start.indices.take(i + 1).last() == start.indices[i as int]);
                lemma_denom_pos(start.indices, i as int);
            }
            let denom = self.global_indices[i].denom.clone();
            let global_index = self.global_indices[i].index;
            let prior = self.distribution(user, &denom);
            let pending = {
                {
                    proof {
                        if let Some((l, p)) = prior {
                            let k = crate::state::distribution_pos(
                                start.distributions,
                                user@,
                                denom@,
                            );
                            assert(settled_within(start.indices, start.distributions[k]));
                        }
                    }
                    match calculate_user_reward(global_index, prior, weight) {
                        Ok(v) => v,
                        Err(_) => {
                            proof {
                                assert(settle_user(
                                    start.distributions,
                                    start.indices.take(i + 1),
                                    *user,
                                    weight,
                                ) is None);
                                lemma_settle_user_stays_none(
                                    start.distributions,
                                    start.indices,
                                    i + 1,
                                    *user,
                                    weight,
                                );
                            }
                            return Err(DistributorError::Overflow);
                        },
                    }
                }
            };
            self.store_distribution(user, &denom, global_index, pending);
            i += 1;
        }
        assert(start.indices.take(n as int) =~= start.indices);
        Ok(())
    }
}

/// The ledger after `user`'s weight becomes `new_weight` (`None`: they leave). Their accrual
/// is first settled at their old effective weight, zero if the ledger did not know them: a
/// newcomer's settlements start from the current indices, and one who returns keeps what was
/// pending from before but earns nothing for the time away.
pub open spec fn reweigh(s: LedgerState, user: String, new_weight: Option<u128>) -> Result<
    LedgerState,
    DistributorError,
> {
    let old_weight = effective_weight_of(s.weights, user@);
    let settle_weight = old_weight as u128;
    match settle_user(s.distributions, s.indices, user, settle_weight) {
        None => Err(DistributorError::Overflow),
        Some(ds) => match new_weight {
            None => Ok(
                LedgerState {
                    weights: remove_weight(s.weights, user@),
                    total_weight: (s.total_weight - old_weight) as u128,
                    distributions: ds,
                    ..s
                },
            ),
            Some(w) => {
                let eff = effective_weight(w as int, s.minimum_eligible_weight as int);
                let total = s.total_weight - old_weight + eff;
                if total > u128::MAX {
                    Err(DistributorError::Overflow)
                } else {
                    Ok(
                        LedgerState {
                            weights: set_weight(s.weights, user, w, eff as u128),
                            total_weight: total as u128,
                            distributions: ds,
                            ..s
                        },
                    )
                }
            },
        },
    }
}

/// A weight change keeps the ledger well formed and touches only weights and settlements.
pub proof fn lemma_reweigh_wf(s: LedgerState, user: String, new_weight: Option<u128>)
    requires
        s.wf(),
    ensures
        reweigh(s, user, new_weight) matches Ok(t) ==> t.wf() && t.indices == s.indices
            && t.squad_contract == s.squad_contract && t.minimum_eligible_weight
            == s.minimum_eligible_weight,
{
    let old_weight = effective_weight_of(s.weights, user@);
    let settle_weight = old_weight as u128;
    assert(s.indices.take(s.indices.len() as int) =~= s.indices);
    lemma_effective_within_sum(s.weights, user@);
    if let Ok(t) = reweigh(s, user, new_weight) {
        lemma_settle_user(s.distributions, s.indices, s.indices.len() as int, user, settle_weight);
        match new_weight {
            None => {
                lemma_remove_weight(s.weights, user@);
                assert forall|i: int| 0 <= i < t.weights.len() implies (#[trigger] t.weights[i]).effective_weight
                    == effective_weight(t.weights[i].weight as int, t.minimum_eligible_weight as int) by {
                    let k = choose|k: int| 0 <= k < s.weights.len() && #[trigger] s.weights[k] == t.weights[i];
                    assert(s.weights[k] == t.weights[i]);
                }
            },
            Some(w) => {
                let eff = effective_weight(w as int, s.minimum_eligible_weight as int);
                lemma_set_weight(s.weights, user, w, eff as u128);
                assert forall|i: int| 0 <= i < t.weights.len() implies (#[trigger] t.weights[i]).effective_weight
                    == effective_weight(t.weights[i].weight as int, t.minimum_eligible_weight as int) by {
                    let x = t.weights[i];
                    if !(x.user@ == user@ && x.weight == w && x.effective_weight == eff) {
                        let k = choose|k: int| 0 <= k < s.weights.len() && #[trigger] s.weights[k] == x;
                        assert(s.weights[k] == x);
                    }
                }
            },
        }
    }
}

/// A participant's weight after the eligibility floor.
pub fn calculate_effective_weight(weight: u128, minimum_eligible_weight: u128) -> (r: u128)
    ensures
        r == effective_weight(weight as int, minimum_eligible_weight as int),
{
    if weight >= minimum_eligible_weight {
        weight
    } else {
        0
    }
}

impl Ledger {
    /// Changes `user`'s weight to `new_weight`, or removes them on `None`, after settling their
    /// accrual. On an error the ledger is left part-way and must be discarded.
    pub fn reweigh_user(&mut self, user: &String, new_weight: Option<u128>) -> (r: Result<
        (),
        DistributorError,
    >)
        requires
            old(self)@.wf(),
        ensures
            match reweigh(old(self)@, *user, new_weight) {
                Ok(t) => r is Ok && final(self)@ == t,
                Err(e) => r == Err::<(), DistributorError>(e),
            },
    {
        let ghost start = self@;
        let found = self.find_user(user);
        let old_weight = match found {
            Some(i) => self.user_weights[i].effective_weight,
            None => 0,
        };
        let settle_weight = old_weight;
        proof {
            lemma_effective_within_sum(start.weights, user@);
        }
        match self.update_user_native_distributions(user, settle_weight) {
            Ok(()) => {},
            Err(e) => {
                return Err(e);
            },
        }
        match new_weight {
            None => {
                if let Some(i) = found {
                    self.user_weights.remove(i);
                }
                self.total_weight = self.total_weight - old_weight;
            },
            Some(w) => {
                let eff = calculate_effective_weight(w, self.minimum_eligible_weight);
                let base = self.total_weight - old_weight;
                let total = match base.checked_add(eff) {
                    Some(t) => t,
                    None => {
                        return Err(DistributorError::Overflow);
                    },
                };
                let rec = UserWeightRecord { user: user.clone(), weight: w, effective_weight: eff };
                match found {
                    Some(i) => {
                        self.user_weights.set(i, rec);
                    },
                    None => {
                        self.user_weights.push(rec);
                    },
                }
                self.total_weight = total;
            },
        }
        Ok(())
    }
}

/// The weight that a membership change reports.
pub open spec fn new_weight_of(diff: MemberDiff) -> Option<u128> {
    match diff.new {
        Some(w) => Some(w as u128),
        None => None,
    }
}

/// The ledger after each of `diffs` in turn.
pub open spec fn apply_diffs(s: LedgerState, diffs: Seq<MemberDiff>) -> Result<
    LedgerState,
    DistributorError,
>
    decreases diffs.len(),
{
    if diffs.len() == 0 {
        Ok(s)
    } else {
        match apply_diffs(s, diffs.drop_last()) {
            Ok(prev) => reweigh(prev, diffs.last().key, new_weight_of(diffs.last())),
            Err(e) => Err(e),
        }
    }
}

/// The ledger after a batch of membership changes sent by `sender`, or why it is refused.
pub open spec fn update_user_weights_spec(
    s: LedgerState,
    sender: Seq<char>,
    diffs: Seq<MemberDiff>,
) -> Result<LedgerState, DistributorError> {
    if sender != s.squad_contract {
        Err(DistributorError::Unauthorized)
    } else {
        apply_diffs(s, diffs)
    }
}

/// The ledger after `member` is seeded, or why it is refused.
pub open spec fn seed_member(s: LedgerState, member: Member) -> Result<
    LedgerState,
    DistributorError,
> {
    if has_user(s.weights, member.addr@) {
        Err(DistributorError::DuplicateInitialWeight)
    } else {
        reweigh(s, member.addr, Some(member.weight as u128))
    }
}

/// The ledger after each of `members` in turn is seeded.
pub open spec fn seed_members(s: LedgerState, members: Seq<Member>) -> Result<
    LedgerState,
    DistributorError,
>
    decreases members.len(),
{
    if members.len() == 0 {
        Ok(s)
    } else {
        match seed_members(s, members.drop_last()) {
            Ok(prev) => seed_member(prev, members.last()),
            Err(e) => Err(e),
        }
    }
}

pub proof fn lemma_apply_diffs_stays_err(s: LedgerState, diffs: Seq<MemberDiff>, n: int)
    requires
        0 <= n <= diffs.len(),
        apply_diffs(s, diffs.take(n)) is Err,
    ensures
        apply_diffs(s, diffs) == apply_diffs(s, diffs.take(n)),
    decreases diffs.len() - n,
{
    if n < diffs.len() {
        assert(diffs.take(n + 1).drop_last() =~= diffs.take(n));
        lemma_apply_diffs_stays_err(s, diffs, n + 1);
    } else {
        assert(diffs.take(n) =~= diffs);
    }
}

proof fn lemma_seed_members_stays_err(s: LedgerState, members: Seq<Member>, n: int)
    requires
        0 <= n <= members.len(),
        seed_members(s, members.take(n)) is Err,
    ensures
        seed_members(s, members) == seed_members(s, members.take(n)),
    decreases members.len() - n,
{
    if n < members.len() {
        assert(members.take(n + 1).drop_last() =~= members.take(n));
        lemma_seed_members_stays_err(s, members, n + 1);
    } else {
        assert(members.take(n) =~= members);
    }
}

impl Ledger {
    /// Applies a batch of membership changes in order, all of them or, on an error, none.
    /// Only the membership source may send them.
    pub fn update_user_weights(&mut self, sender: &String, msg: &UpdateUserWeightsMsg) -> (r:
        Result<(), DistributorError>)
        requires
            old(self)@.wf(),
        ensures
            final(self)@.wf(),
            update_user_weights_spec(old(self)@, sender@, msg.diffs@) == match r {
                Ok(_) => Ok(final(self)@),
                Err(e) => Err::<LedgerState, DistributorError>(e),
            },
            r is Err ==> final(self)@ == old(self)@,
    {
        if !(*sender == self.squad_contract) {
            return Err(DistributorError::Unauthorized);
        }
        let mut next = self.duplicate();
        let mut i: usize = 0;
        assert(msg.diffs@.take(0) =~= Seq::<MemberDiff>::empty());
        while i < msg.diffs.len()
            invariant
                0 <= i <= msg.diffs@.len(),
                self@ == old(self)@,
                sender@ == self@.squad_contract,
                self@.wf(),
                next@.wf(),
                apply_diffs(self@, msg.diffs@.take(i as int)) == Ok::<LedgerState, DistributorError>(next@),
            decreases msg.diffs@.len() - i,
        {
            let diff = &msg.diffs[i];
            proof {
                assert(msg.diffs@.take(i + 1).drop_last() =~= msg.diffs@.take(i as int));
                assert(msg.diffs@.take(i + 1).last() == msg.diffs@[i as int]);
                lemma_reweigh_wf(next@, diff.key, new_weight_of(*diff));
            }
            let new_weight = match diff.new {
                Some(w) => Some(w as u128),
                None => None,
            };
            match next.reweigh_user(&diff.key, new_weight) {
                Ok(()) => {},
                Err(e) => {
                    proof {
                        lemma_apply_diffs_stays_err(self@, msg.diffs@, i + 1);
                    }
                    return Err(e);
                },
            }
            i += 1;
        }
        assert(msg.diffs@.take(msg.diffs@.len() as int) =~= msg.diffs@);
        *self = next;
        Ok(())
    }

    /// Gives each of `initial_weights` their weight, all of them or, on an error, none. A
    /// participant who already has a weight, or is named twice, is refused.
    pub fn save_initial_weights(&mut self, initial_weights: &Vec<Member>) -> (r: Result<
        (),
        DistributorError,
    >)
        requires
            old(self)@.wf(),
        ensures
            final(self)@.wf(),
            seed_members(old(self)@, initial_weights@) == match r {
                Ok(_) => Ok(final(self)@),
                Err(e) => Err::<LedgerState, DistributorError>(e),
            },
            r is Err ==> final(self)@ == old(self)@,
    {
        let mut next = self.duplicate();
        let mut i: usize = 0;
        assert(initial_weights@.take(0) =~= Seq::<Member>::empty());
        while i < initial_weights.len()
            invariant
                0 <= i <= initial_weights@.len(),
                self@ == old(self)@,
                self@.wf(),
                next@.wf(),
                seed_members(self@, initial_weights@.take(i as int)) == Ok::<
                    LedgerState,
                    DistributorError,
                >(next@),
            decreases initial_weights@.len() - i,
        {
            let member = &initial_weights[i];
            proof {
                assert(initial_weights@.take(i + 1).drop_last() =~= initial_weights@.take(i as int));
                assert(initial_weights@.take(i + 1).last() == initial_weights@[i as int]);
                lemma_reweigh_wf(next@, member.addr, Some(member.weight as u128));
            }
            if next.find_user(&member.addr).is_some() {
                proof {
                    lemma_seed_members_stays_err(self@, initial_weights@, i + 1);
                }
                return Err(DistributorError::DuplicateInitialWeight);
            }
            match next.reweigh_user(&member.addr, Some(member.weight as u128)) {
                Ok(()) => {},
                Err(e) => {
                    proof {
                        lemma_seed_members_stays_err(self@, initial_weights@, i + 1);
                    }
                    return Err(e);
                },
            }
            i += 1;
        }
        assert(initial_weights@.take(initial_weights@.len() as int) =~= initial_weights@);
        *self = next;
        Ok(())
    }
}

} // verus!
