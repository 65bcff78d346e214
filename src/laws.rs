//! Properties that hold of every ledger and every sequence of operations.

use crate::api::{Coin, MemberDiff, NativeReward, UserRewardsParams};
use crate::claim::claim_denoms;
use crate::decimal::{ratio_atomics, DECIMAL_FRACTIONAL};
use crate::distributing::{apply_funds, distribute_spec};
use crate::rewards::{accrued_reward, contains_denom, distinct_denoms, rewards_match};
use crate::state::{
    distribution_of, distribution_pos, effective_weight, effective_weight_of, has_denom,
    has_distribution, has_user, index_of, lemma_effective_within_sum, lemma_remove_weight,
    lemma_reset_distribution, lemma_set_distribution, lemma_set_index, lemma_set_weight,
    lemma_sum_effective_remove, lemma_user_pos, set_distribution, settled_within, sorted_denoms,
    sum_effective, unique_users, GlobalIndex, LedgerState, NativeDistribution,
};
use crate::user_weights::{
    apply_diffs, lemma_reweigh_wf, lemma_settle_user, new_weight_of, reweigh,
};
use vstd::prelude::*;

verus! {

/// In a well-formed ledger, a settlement in a denomination never distributed holds nothing.
proof fn lemma_undistributed_settlement(s: LedgerState, user: Seq<char>, denom: Seq<char>)
    requires
        s.wf(),
        index_of(s.indices, denom) == 0,
    ensures
        distribution_of(s.distributions, user, denom) matches Some((l, p)) ==> l == 0 && p == 0,
{
    if has_distribution(s.distributions, user, denom) {
        let k = distribution_pos(s.distributions, user, denom);
        assert(settled_within(s.indices, s.distributions[k]));
    }
}

/// A participant whom the ledger did not know shares only in what is distributed after a
/// weight change makes them known, whatever their weight: right after it they can claim just
/// what an earlier membership left pending, and nothing in a denomination where they never held
/// a settlement.
pub proof fn lemma_no_retroactive_reward(
    s: LedgerState,
    user: String,
    new_weight: Option<u128>,
    denom: Seq<char>,
)
    requires
        s.wf(),
        !has_user(s.weights, user@),
        reweigh(s, user, new_weight) is Ok,
    ensures
        reweigh(s, user, new_weight).unwrap().claimable(user@, denom) == match distribution_of(
            s.distributions,
            user@,
            denom,
        ) {
            Some((_, pending)) => pending as int,
            None => 0,
        },
{
    let t = reweigh(s, user, new_weight).unwrap();
    assert(s.indices.take(s.indices.len() as int) =~= s.indices);
    assert(effective_weight_of(s.weights, user@) == 0);
    lemma_settle_user(s.distributions, s.indices, s.indices.len() as int, user, 0);
    let w = effective_weight_of(t.weights, user@);
    let g = index_of(s.indices, denom);
    lemma_effective_within_sum(t.weights, user@);
    let prior = distribution_of(s.distributions, user@, denom);
    if !has_denom(s.indices, denom) {
        lemma_undistributed_settlement(s, user@, denom);
    }
    match prior {
        Some((l, p)) => {
            assert((g - l) * 0 == 0) by (nonlinear_arith);
        },
        None => {
            assert(g * 0 == 0) by (nonlinear_arith);
        },
    }
    match distribution_of(t.distributions, user@, denom) {
        Some((l, p)) => {
            assert((g - l) * w == 0) by (nonlinear_arith)
                requires
                    l == g,
            ;
        },
        None => {
            assert(0 * w == 0) by (nonlinear_arith);
        },
    }
}

/// Facts about the settlements that claiming the first `n` of `denoms` leaves.
proof fn lemma_claim_prefix(s: LedgerState, user: String, denoms: Seq<String>, n: int)
    requires
        s.wf(),
        distinct_denoms(denoms),
        0 <= n <= denoms.len(),
        claim_denoms(s, user, denoms.take(n)) is Some,
    ensures
        ({
            let ds = claim_denoms(s, user, denoms.take(n)).unwrap().0;
            &&& (LedgerState { distributions: ds, ..s }).wf()
            &&& forall|k: int|
                0 <= k < n ==> match distribution_of(ds, user@, (#[trigger] denoms[k])@) {
                    Some((l, p)) => l == index_of(s.indices, denoms[k]@) && p == 0,
                    None => index_of(s.indices, denoms[k]@) == 0,
                }
        }),
    decreases n,
{
    if n == 0 {
    } else {
        let m = n - 1;
        assert(denoms.take(n).drop_last() =~= denoms.take(m));
        assert(denoms.take(n).last() == denoms[m]);
        lemma_claim_prefix(s, user, denoms, m);
        let ds = claim_denoms(s, user, denoms.take(m)).unwrap().0;
        let prev = LedgerState { distributions: ds, ..s };
        let d = denoms[m];
        let g = index_of(s.indices, d@);
        if g == 0 {
            lemma_undistributed_settlement(prev, user@, d@);
        } else {
            lemma_reset_distribution(prev, user, d);
            lemma_set_distribution(ds, user, d, g as u128, 0);
            assert forall|k: int| 0 <= k < m implies denoms[k]@ != d@ by {
                assert(k != m);
            }
        }
    }
}

/// After a claim, the participant can claim nothing more in the claimed denominations; and
/// after any further sequence of distributions, exactly what they added to their accrual at
/// their weight.
pub proof fn lemma_claim_zeroes_accrual(
    s: LedgerState,
    user: String,
    denoms: Seq<String>,
    batches: Seq<Seq<Coin>>,
    denom: Seq<char>,
)
    requires
        s.wf(),
        distinct_denoms(denoms),
        claim_denoms(s, user, denoms) is Some,
        contains_denom(denoms, denom),
    ensures
        ({
            let claimed = LedgerState {
                distributions: claim_denoms(s, user, denoms).unwrap().0,
                ..s
            };
            &&& claimed.claimable(user@, denom) == 0
            &&& distribute_all(claimed, batches) matches Ok(after) ==> after.claimable(user@, denom)
                == accrued_reward(
                index_of(after.indices, denom),
                index_of(claimed.indices, denom),
                effective_weight_of(s.weights, user@),
            )
        }),
{
    assert(denoms.take(denoms.len() as int) =~= denoms);
    lemma_claim_prefix(s, user, denoms, denoms.len() as int);
    let k = choose|k: int| 0 <= k < denoms.len() && (#[trigger] denoms[k])@ == denom;
    assert(denoms[k]@ == denom);
    let ds = claim_denoms(s, user, denoms).unwrap().0;
    let claimed = LedgerState { distributions: ds, ..s };
    let g = index_of(s.indices, denom);
    let w = effective_weight_of(s.weights, user@);
    lemma_effective_within_sum(s.weights, user@);
    assert(g * 0 == 0) by (nonlinear_arith);
    assert(0 * w == 0) by (nonlinear_arith);
    assert((g - g) * w == 0) by (nonlinear_arith);
    if let Ok(after) = distribute_all(claimed, batches) {
        lemma_distribute_all_bound(claimed, batches, denom);
        match distribution_of(ds, user@, denom) {
            Some((l, p)) => {},
            None => {
                assert(g == 0);
            },
        }
    }
}

/// A participant below the eligibility floor keeps their raw weight but holds no effective
/// weight, adds nothing to the total, and accrues nothing from any sequence of distributions.
pub proof fn lemma_eligibility_floor(
    s: LedgerState,
    i: int,
    batches: Seq<Seq<Coin>>,
    denom: Seq<char>,
)
    requires
        s.wf(),
        0 <= i < s.weights.len(),
        s.weights[i].weight < s.minimum_eligible_weight,
    ensures
        effective_weight_of(s.weights, s.weights[i].user@) == 0,
        sum_effective(s.weights.remove(i)) == s.total_weight,
        distribute_all(s, batches) matches Ok(t) ==> t.weights == s.weights && t.claimable(
            s.weights[i].user@,
            denom,
        ) == s.claimable(s.weights[i].user@, denom),
{
    let u = s.weights[i].user@;
    lemma_user_pos(s.weights, i);
    lemma_sum_effective_remove(s.weights, i);
    if let Ok(t) = distribute_all(s, batches) {
        lemma_distribute_all_bound(s, batches, denom);
        let g1 = index_of(s.indices, denom);
        let g2 = index_of(t.indices, denom);
        match distribution_of(s.distributions, u, denom) {
            Some((l, p)) => {
                assert((g1 - l) * 0 == 0) by (nonlinear_arith);
                assert((g2 - l) * 0 == 0) by (nonlinear_arith);
            },
            None => {
                assert(g1 * 0 == 0) by (nonlinear_arith);
                assert(g2 * 0 == 0) by (nonlinear_arith);
            },
        }
    }
}

/// The total amount of `denom` among `funds`.
pub open spec fn amount_in(funds: Seq<Coin>, denom: Seq<char>) -> int
    decreases funds.len(),
{
    if funds.len() == 0 {
        0
    } else {
        amount_in(funds.drop_last(), denom) + if funds.last().denom@ == denom {
            funds.last().amount as int
        } else {
            0
        }
    }
}

/// The total amount of `denom` over a sequence of distributions.
pub open spec fn amount_in_batches(batches: Seq<Seq<Coin>>, denom: Seq<char>) -> int
    decreases batches.len(),
{
    if batches.len() == 0 {
        0
    } else {
        amount_in_batches(batches.drop_last(), denom) + amount_in(batches.last(), denom)
    }
}

/// The ledger after each distribution of `batches` in turn.
pub open spec fn distribute_all(s: LedgerState, batches: Seq<Seq<Coin>>) -> Result<
    LedgerState,
    crate::error::DistributorError,
>
    decreases batches.len(),
{
    if batches.len() == 0 {
        Ok(s)
    } else {
        match distribute_all(s, batches.drop_last()) {
            Ok(prev) => distribute_spec(prev, batches.last()),
            Err(e) => Err(e),
        }
    }
}

/// What the first `n` known participants can claim in `denom`, together.
pub open spec fn claimable_sum(s: LedgerState, n: int, denom: Seq<char>) -> int
    decreases n,
{
    if n <= 0 {
        0
    } else {
        claimable_sum(s, n - 1, denom) + s.claimable(s.weights[n - 1].user@, denom)
    }
}

proof fn lemma_div_mul_le(x: int, d: int)
    requires
        x >= 0,
        d > 0,
    ensures
        (x / d) * d <= x,
        x / d >= 0,
{
    vstd::arithmetic::div_mod::lemma_fundamental_div_mod(x, d);
    assert(x % d >= 0);
    assert(x / d >= 0) by (nonlinear_arith)
        requires
            x >= 0,
            d > 0,
    ;
    assert((x / d) * d == d * (x / d)) by (nonlinear_arith);
}

/// Spreading `funds` over `total_weight` raises an index by at most the amount distributed
/// in its denomination divided by the total weight.
proof fn lemma_apply_funds_bound(
    ix: Seq<GlobalIndex>,
    funds: Seq<Coin>,
    total_weight: u128,
    denom: Seq<char>,
)
    requires
        sorted_denoms(ix),
        total_weight > 0,
        apply_funds(ix, funds, total_weight) is Some,
    ensures
        sorted_denoms(apply_funds(ix, funds, total_weight).unwrap()),
        index_of(apply_funds(ix, funds, total_weight).unwrap(), denom) * total_weight <= index_of(
            ix,
            denom,
        ) * total_weight + amount_in(funds, denom) * DECIMAL_FRACTIONAL,
    decreases funds.len(),
{
    if funds.len() > 0 {
        let t = total_weight as int;
        let sc = DECIMAL_FRACTIONAL as int;
        lemma_apply_funds_bound(ix, funds.drop_last(), total_weight, denom);
        let prev = apply_funds(ix, funds.drop_last(), total_weight).unwrap();
        let f = funds.last();
        let inc = ratio_atomics(f.amount as int, t);
        let next = index_of(prev, f.denom@) + inc;
        lemma_set_index(prev, f.denom, next as u128);
        lemma_div_mul_le(f.amount * sc, t);
        let a0 = index_of(ix, denom);
        let p = index_of(prev, denom);
        let r = index_of(apply_funds(ix, funds, total_weight).unwrap(), denom);
        let m0 = amount_in(funds.drop_last(), denom);
        if f.denom@ == denom {
            assert(r == p + inc);
            assert(r * t <= a0 * t + (m0 + f.amount) * sc) by (nonlinear_arith)
                requires
                    r == p + inc,
                    p * t <= a0 * t + m0 * sc,
                    inc * t <= f.amount * sc,
            ;
        } else {
            assert(r == p);
        }
    }
}

/// A sequence of distributions leaves weights and settlements alone and raises an index by
/// at most what was distributed in its denomination divided by the total weight.
proof fn lemma_distribute_all_bound(s: LedgerState, batches: Seq<Seq<Coin>>, denom: Seq<char>)
    requires
        sorted_denoms(s.indices),
        distribute_all(s, batches) is Ok,
    ensures
        ({
            let t = distribute_all(s, batches).unwrap();
            &&& t == (LedgerState { indices: t.indices, ..s })
            &&& sorted_denoms(t.indices)
            &&& index_of(t.indices, denom) * s.total_weight <= index_of(s.indices, denom)
                * s.total_weight + amount_in_batches(batches, denom) * DECIMAL_FRACTIONAL
        }),
    decreases batches.len(),
{
    if batches.len() > 0 {
        lemma_distribute_all_bound(s, batches.drop_last(), denom);
        let prev = distribute_all(s, batches.drop_last()).unwrap();
        lemma_apply_funds_bound(prev.indices, batches.last(), prev.total_weight, denom);
        let t = s.total_weight as int;
        let sc = DECIMAL_FRACTIONAL as int;
        let r = index_of(distribute_all(s, batches).unwrap().indices, denom);
        let p = index_of(prev.indices, denom);
        let a0 = index_of(s.indices, denom);
        let m0 = amount_in_batches(batches.drop_last(), denom);
        let m1 = amount_in(batches.last(), denom);
        assert(r * t <= a0 * t + (m0 + m1) * sc) by (nonlinear_arith)
            requires
                r * t <= p * t + m1 * sc,
                p * t <= a0 * t + m0 * sc,
        ;
    }
}

/// Where every settlement in `denom` is at index zero with nothing pending, the first `n`
/// participants together can claim at most the index times their weight.
proof fn lemma_claimable_sum_bound(s: LedgerState, n: int, denom: Seq<char>)
    requires
        unique_users(s.weights),
        0 <= n <= s.weights.len(),
        index_of(s.indices, denom) >= 0,
        forall|u: Seq<char>|
            #![trigger distribution_of(s.distributions, u, denom)]
            distribution_of(s.distributions, u, denom) matches Some((l, p)) ==> l == 0 && p == 0,
    ensures
        claimable_sum(s, n, denom) * DECIMAL_FRACTIONAL <= index_of(s.indices, denom)
            * sum_effective(s.weights.take(n)),
        claimable_sum(s, n, denom) >= 0,
    decreases n,
{
    if n > 0 {
        lemma_claimable_sum_bound(s, n - 1, denom);
        assert(s.weights.take(n).drop_last() =~= s.weights.take(n - 1));
        let u = s.weights[n - 1].user@;
        lemma_user_pos(s.weights, n - 1);
        let w = s.weights[n - 1].effective_weight as int;
        let g = index_of(s.indices, denom);
        let sc = DECIMAL_FRACTIONAL as int;
        assert(distribution_of(s.distributions, u, denom) matches Some((l, p)) ==> l == 0 && p == 0);
        assert(s.claimable(u, denom) == (g * w) / sc);
        lemma_div_mul_le(g * w, sc);
        let c0 = claimable_sum(s, n - 1, denom);
        let w0 = sum_effective(s.weights.take(n - 1));
        assert((c0 + (g * w) / sc) * sc <= g * (w0 + w)) by (nonlinear_arith)
            requires
                c0 * sc <= g * w0,
                ((g * w) / sc) * sc <= g * w,
        ;
    }
}

/// Conservation: from a ledger in which nothing was yet distributed in `denom`, after any
/// sequence of distributions the known participants together can claim no more of `denom`
/// than was distributed in it, and nobody else can claim any.
pub proof fn lemma_conservation(s: LedgerState, batches: Seq<Seq<Coin>>, denom: Seq<char>)
    requires
        s.wf(),
        index_of(s.indices, denom) == 0,
        distribute_all(s, batches) is Ok,
    ensures
        ({
            let t = distribute_all(s, batches).unwrap();
            &&& claimable_sum(t, t.weights.len() as int, denom) <= amount_in_batches(batches, denom)
            &&& forall|u: Seq<char>| !has_user(t.weights, u) ==> #[trigger] t.claimable(u, denom) == 0
        }),
{
    lemma_distribute_all_bound(s, batches, denom);
    let t = distribute_all(s, batches).unwrap();
    let g = index_of(t.indices, denom);
    let sc = DECIMAL_FRACTIONAL as int;
    let tw = s.total_weight as int;
    let a = amount_in_batches(batches, denom);
    assert forall|u: Seq<char>|
        #![trigger distribution_of(t.distributions, u, denom)]
        distribution_of(t.distributions, u, denom) matches Some((l, p)) ==> l == 0 && p == 0 by {
        lemma_undistributed_settlement(s, u, denom);
    }
    lemma_claimable_sum_bound(t, t.weights.len() as int, denom);
    assert(t.weights.take(t.weights.len() as int) =~= t.weights);
    let c = claimable_sum(t, t.weights.len() as int, denom);
    assert(c <= a) by (nonlinear_arith)
        requires
            c * sc <= g * tw,
            g * tw <= 0 * tw + a * sc,
            sc > 0,
    ;
    assert forall|u: Seq<char>| !has_user(t.weights, u) implies #[trigger] t.claimable(u, denom) == 0 by {
        assert(g * 0 == 0) by (nonlinear_arith);
    }
}

/// Settling a known participant without changing their weight leaves what they can claim in
/// every denomination as it was: settlement only moves accrual into the pending amount.
pub proof fn lemma_settlement_keeps_claimable(s: LedgerState, i: int, denom: Seq<char>)
    requires
        s.wf(),
        0 <= i < s.weights.len(),
        reweigh(s, s.weights[i].user, Some(s.weights[i].weight)) is Ok,
    ensures
        reweigh(s, s.weights[i].user, Some(s.weights[i].weight)).unwrap().claimable(
            s.weights[i].user@,
            denom,
        ) == s.claimable(s.weights[i].user@, denom),
{
    let user = s.weights[i].user;
    let t = reweigh(s, user, Some(s.weights[i].weight)).unwrap();
    lemma_user_pos(s.weights, i);
    let w = s.weights[i].effective_weight;
    assert(s.indices.take(s.indices.len() as int) =~= s.indices);
    lemma_settle_user(s.distributions, s.indices, s.indices.len() as int, user, w);
    lemma_set_weight(s.weights, user, s.weights[i].weight, w);
    assert(effective_weight_of(t.weights, user@) == w);
    let g = index_of(s.indices, denom);
    if has_denom(s.indices, denom) {
        assert((g - g) * w == 0) by (nonlinear_arith);
    }
}

/// Two answers to the same rewards query on the same ledger agree: reading is deterministic.
pub proof fn lemma_rewards_deterministic(
    s: LedgerState,
    params: UserRewardsParams,
    first: Seq<NativeReward>,
    second: Seq<NativeReward>,
)
    requires
        rewards_match(s, params, first),
        rewards_match(s, params, second),
    ensures
        first.len() == second.len(),
        forall|k: int|
            0 <= k < first.len() ==> (#[trigger] first[k]).denom@ == second[k].denom@
                && first[k].amount == second[k].amount,
{
}

/// Claiming one denomination pays exactly what the participant can claim in it, and nothing
/// when it was never distributed.
pub proof fn lemma_claim_pays_claimable(s: LedgerState, user: String, denom: String)
    ensures
        claim_denoms(s, user, seq![denom]) == if index_of(s.indices, denom@) == 0 {
            Some((s.distributions, Seq::<Coin>::empty()))
        } else if s.claimable(user@, denom@) > u128::MAX {
            None
        } else {
            Some(
                (
                    set_distribution(
                        s.distributions,
                        user,
                        denom,
                        index_of(s.indices, denom@) as u128,
                        0,
                    ),
                    seq![Coin { denom, amount: s.claimable(user@, denom@) as u128 }],
                ),
            )
        },
{
    assert(seq![denom].drop_last() =~= Seq::<String>::empty());
    assert(seq![denom].last() == denom);
    assert(claim_denoms(s, user, Seq::<String>::empty()) == Some(
        (s.distributions, Seq::<Coin>::empty()),
    ));
    assert(Seq::<Coin>::empty().push(
        Coin { denom, amount: s.claimable(user@, denom@) as u128 },
    ) =~= seq![Coin { denom, amount: s.claimable(user@, denom@) as u128 }]);
}

/// What a newcomer's settlement in `denom` is after the first `n` changes of a batch.
proof fn lemma_batch_newcomer_prefix(
    s: LedgerState,
    diffs: Seq<MemberDiff>,
    n: int,
    user: Seq<char>,
    denom: Seq<char>,
)
    requires
        s.wf(),
        !has_user(s.weights, user),
        has_denom(s.indices, denom),
        0 <= n <= diffs.len(),
        apply_diffs(s, diffs.take(n)) is Ok,
    ensures
        ({
            let t = apply_diffs(s, diffs.take(n)).unwrap();
            &&& t.wf()
            &&& t.indices == s.indices
            &&& if exists|k: int| 0 <= k < n && (#[trigger] diffs[k]).key@ == user {
                distribution_of(t.distributions, user, denom) == Some(
                    (index_of(s.indices, denom) as u128, pending_of(s.distributions, user, denom)),
                )
            } else {
                distribution_of(t.distributions, user, denom) == distribution_of(
                    s.distributions,
                    user,
                    denom,
                ) && effective_weight_of(t.weights, user) == 0
            }
        }),
    decreases n,
{
    if n > 0 {
        let m = n - 1;
        assert(diffs.take(n).drop_last() =~= diffs.take(m));
        assert(diffs.take(n).last() == diffs[m]);
        if apply_diffs(s, diffs.take(m)) is Err {
            assert(false);
        }
        lemma_batch_newcomer_prefix(s, diffs, m, user, denom);
        let prev = apply_diffs(s, diffs.take(m)).unwrap();
        let x = diffs[m];
        let nw = new_weight_of(x);
        let t = reweigh(prev, x.key, nw).unwrap();
        lemma_reweigh_wf(prev, x.key, nw);
        let w_old = effective_weight_of(prev.weights, x.key@);
        lemma_effective_within_sum(prev.weights, x.key@);
        assert(prev.indices.take(prev.indices.len() as int) =~= prev.indices);
        lemma_settle_user(
            prev.distributions,
            prev.indices,
            prev.indices.len() as int,
            x.key,
            w_old as u128,
        );
        match nw {
            Some(w) => {
                lemma_set_weight(
                    prev.weights,
                    x.key,
                    w,
                    effective_weight(w as int, prev.minimum_eligible_weight as int) as u128,
                );
            },
            None => {
                lemma_remove_weight(prev.weights, x.key@);
            },
        }
        let g = index_of(s.indices, denom);
        let p0 = pending_of(s.distributions, user, denom);
        let seen_before = exists|k: int| 0 <= k < m && (#[trigger] diffs[k]).key@ == user;
        if x.key@ == user {
            let prior = distribution_of(prev.distributions, user, denom);
            if seen_before {
                assert((g - g) * w_old == 0) by (nonlinear_arith);
            } else {
                if !has_denom(s.indices, denom) {
                    assert(false);
                }
                match prior {
                    Some((l, p)) => {
                        assert((g - l) * 0 == 0) by (nonlinear_arith);
                    },
                    None => {
                        assert(g * 0 == 0) by (nonlinear_arith);
                    },
                }
            }
            assert(exists|k: int| 0 <= k < n && (#[trigger] diffs[k]).key@ == user) by {
                assert(diffs[m].key@ == user);
            }
        } else {
            if exists|k: int| 0 <= k < n && (#[trigger] diffs[k]).key@ == user {
                let k = choose|k: int| 0 <= k < n && (#[trigger] diffs[k]).key@ == user;
                assert(k < m);
                assert(seen_before);
            } else {
                assert(!seen_before);
            }
        }
    }
}

/// What `user` had pending in `denom`, zero when they held no settlement there.
pub open spec fn pending_of(ds: Seq<NativeDistribution>, user: Seq<char>, denom: Seq<char>) -> u128 {
    match distribution_of(ds, user, denom) {
        Some((_, pending)) => pending,
        None => 0,
    }
}

/// A batch of membership changes leaves a participant it makes known, in every denomination
/// with an index, settled at that index with only what an earlier membership left pending
/// (nothing for a true newcomer), however often the batch changes their weight.
pub proof fn lemma_batch_no_retroactive_reward(
    s: LedgerState,
    diffs: Seq<MemberDiff>,
    user: Seq<char>,
    denom: Seq<char>,
)
    requires
        s.wf(),
        !has_user(s.weights, user),
        has_denom(s.indices, denom),
        exists|k: int| 0 <= k < diffs.len() && (#[trigger] diffs[k]).key@ == user,
        apply_diffs(s, diffs) is Ok,
    ensures
        distribution_of(apply_diffs(s, diffs).unwrap().distributions, user, denom) == Some(
            (index_of(s.indices, denom) as u128, pending_of(s.distributions, user, denom)),
        ),
{
    assert(diffs.take(diffs.len() as int) =~= diffs);
    lemma_batch_newcomer_prefix(s, diffs, diffs.len() as int, user, denom);
}

} // verus!
