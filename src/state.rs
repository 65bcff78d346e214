//! The ledger's state: weights, global indices and per-participant settlements.

use crate::rewards::user_reward;
use vstd::prelude::*;

verus! {

/// A participant's raw weight and their weight after the eligibility floor.
#[derive(Debug)]
pub struct UserWeightRecord {
    pub user: String,
    pub weight: u128,
    pub effective_weight: u128,
}

/// Cumulative reward per unit of effective weight for one denomination, in atomic units.
#[derive(Debug)]
pub struct GlobalIndex {
    pub denom: String,
    pub index: u128,
}

/// The index a participant last settled at for a denomination, and what was pending then.
#[derive(Debug)]
pub struct NativeDistribution {
    pub user: String,
    pub denom: String,
    pub user_index: u128,
    pub pending_rewards: u128,
}

/// The whole ledger, threaded explicitly through every operation.
#[derive(Debug)]
pub struct Ledger {
    /// The membership source, the only sender allowed to change weights.
    pub squad_contract: String,
    pub minimum_eligible_weight: u128,
    pub total_weight: u128,
    pub user_weights: Vec<UserWeightRecord>,
    pub global_indices: Vec<GlobalIndex>,
    pub distributions: Vec<NativeDistribution>,
}

/// The mathematical model of a [`Ledger`].
pub struct LedgerState {
    pub squad_contract: Seq<char>,
    pub minimum_eligible_weight: u128,
    pub total_weight: u128,
    pub weights: Seq<UserWeightRecord>,
    pub indices: Seq<GlobalIndex>,
    pub distributions: Seq<NativeDistribution>,
}

impl View for Ledger {
    type V = LedgerState;

    open spec fn view(&self) -> LedgerState {
        LedgerState {
            squad_contract: self.squad_contract@,
            minimum_eligible_weight: self.minimum_eligible_weight,
            total_weight: self.total_weight,
            weights: self.user_weights@,
            indices: self.global_indices@,
            distributions: self.distributions@,
        }
    }
}

// ---- weights ----

/// `weight` if it reaches the eligibility floor, zero otherwise.
pub open spec fn effective_weight(weight: int, minimum: int) -> int {
    if weight >= minimum {
        weight
    } else {
        0
    }
}

pub open spec fn has_user(ws: Seq<UserWeightRecord>, user: Seq<char>) -> bool {
    exists|i: int| 0 <= i < ws.len() && (#[trigger] ws[i]).user@ == user
}

pub open spec fn user_pos(ws: Seq<UserWeightRecord>, user: Seq<char>) -> int {
    choose|i: int| 0 <= i < ws.len() && (#[trigger] ws[i]).user@ == user
}

/// The effective weight of `user`; zero when the ledger does not know them.
pub open spec fn effective_weight_of(ws: Seq<UserWeightRecord>, user: Seq<char>) -> int {
    if has_user(ws, user) {
        ws[user_pos(ws, user)].effective_weight as int
    } else {
        0
    }
}

pub open spec fn unique_users(ws: Seq<UserWeightRecord>) -> bool {
    forall|i: int, j: int|
        0 <= i < ws.len() && 0 <= j < ws.len() && (#[trigger] ws[i]).user@ == (#[trigger] ws[j]).user@
            ==> i == j
}

pub open spec fn sum_effective(ws: Seq<UserWeightRecord>) -> int
    decreases ws.len(),
{
    if ws.len() == 0 {
        0
    } else {
        sum_effective(ws.drop_last()) + ws.last().effective_weight
    }
}

/// `ws` with `user`'s record replaced, or added at the end when they had none.
pub open spec fn set_weight(
    ws: Seq<UserWeightRecord>,
    user: String,
    weight: u128,
    effective: u128,
) -> Seq<UserWeightRecord> {
    let rec = UserWeightRecord { user, weight, effective_weight: effective };
    if has_user(ws, user@) {
        ws.update(user_pos(ws, user@), rec)
    } else {
        ws.push(rec)
    }
}

/// `ws` without `user`'s record.
pub open spec fn remove_weight(ws: Seq<UserWeightRecord>, user: Seq<char>) -> Seq<UserWeightRecord> {
    if has_user(ws, user) {
        ws.remove(user_pos(ws, user))
    } else {
        ws
    }
}

/// Strict lexicographic order on denominations, character by character; on UTF-8 strings
/// this is the order of their bytes.
pub open spec fn denom_lt(a: Seq<char>, b: Seq<char>) -> bool
    decreases a.len(),
{
    if a.len() == 0 {
        b.len() > 0
    } else if b.len() == 0 {
        false
    } else if a[0] != b[0] {
        (a[0] as int) < (b[0] as int)
    } else {
        denom_lt(a.drop_first(), b.drop_first())
    }
}

pub proof fn lemma_denom_lt_irreflexive(a: Seq<char>)
    ensures
        !denom_lt(a, a),
    decreases a.len(),
{
    if a.len() > 0 {
        lemma_denom_lt_irreflexive(a.drop_first());
    }
}

pub proof fn lemma_denom_lt_transitive(a: Seq<char>, b: Seq<char>, c: Seq<char>)
    requires
        denom_lt(a, b),
        denom_lt(b, c),
    ensures
        denom_lt(a, c),
    decreases a.len(),
{
    if a.len() > 0 && b.len() > 0 && c.len() > 0 && a[0] == b[0] && b[0] == c[0] {
        lemma_denom_lt_transitive(a.drop_first(), b.drop_first(), c.drop_first());
    }
}

pub proof fn lemma_denom_lt_total(a: Seq<char>, b: Seq<char>)
    requires
        a != b,
    ensures
        denom_lt(a, b) || denom_lt(b, a),
    decreases a.len(),
{
    if a.len() > 0 && b.len() > 0 && a[0] == b[0] {
        assert(a.drop_first() != b.drop_first()) by {
            if a.drop_first() == b.drop_first() {
                assert(a =~= seq![a[0]] + a.drop_first());
                assert(b =~= seq![b[0]] + b.drop_first());
            }
        }
        lemma_denom_lt_total(a.drop_first(), b.drop_first());
    } else if a.len() == 0 && b.len() == 0 {
        assert(a =~= b);
    } else if a.len() > 0 && b.len() > 0 {
        assert((a[0] as int) != (b[0] as int));
    }
}

/// Relies on `<String as PartialOrd>::lt`: strings compare lexicographically by their bytes,
/// which on UTF-8 is the order of their characters.
#[verifier::external_body]
pub(crate) fn denom_less(a: &String, b: &String) -> (r: bool)
    ensures
        r == denom_lt(a@, b@),
{
    a < b
}

// ---- global indices ----

pub open spec fn has_denom(ix: Seq<GlobalIndex>, denom: Seq<char>) -> bool {
    exists|i: int| 0 <= i < ix.len() && (#[trigger] ix[i]).denom@ == denom
}

pub open spec fn denom_pos(ix: Seq<GlobalIndex>, denom: Seq<char>) -> int {
    choose|i: int| 0 <= i < ix.len() && (#[trigger] ix[i]).denom@ == denom
}

/// The global index of `denom`; zero when nothing was distributed in it.
pub open spec fn index_of(ix: Seq<GlobalIndex>, denom: Seq<char>) -> int {
    if has_denom(ix, denom) {
        ix[denom_pos(ix, denom)].index as int
    } else {
        0
    }
}

pub open spec fn unique_denoms(ix: Seq<GlobalIndex>) -> bool {
    forall|i: int, j: int|
        0 <= i < ix.len() && 0 <= j < ix.len() && (#[trigger] ix[i]).denom@ == (#[trigger] ix[j]).denom@
            ==> i == j
}

/// `ix` with the index of `denom` set to `value`, added at its place in the order of
/// denominations when it had none.
pub open spec fn set_index(ix: Seq<GlobalIndex>, denom: String, value: u128) -> Seq<GlobalIndex> {
    let rec = GlobalIndex { denom, index: value };
    if has_denom(ix, denom@) {
        ix.update(denom_pos(ix, denom@), rec)
    } else {
        ix.insert(lower_count(ix, denom@), rec)
    }
}

/// How many entries of `ix` come before `denom` in the order of denominations.
pub open spec fn lower_count(ix: Seq<GlobalIndex>, denom: Seq<char>) -> int
    decreases ix.len(),
{
    if ix.len() == 0 {
        0
    } else {
        lower_count(ix.drop_last(), denom) + if denom_lt(ix.last().denom@, denom) {
            1int
        } else {
            0int
        }
    }
}

/// The indices are held in ascending order of denomination.
pub open spec fn sorted_denoms(ix: Seq<GlobalIndex>) -> bool {
    forall|i: int, j: int|
        0 <= i < j < ix.len() ==> denom_lt((#[trigger] ix[i]).denom@, (#[trigger] ix[j]).denom@)
}

// ---- settlements ----

pub open spec fn has_distribution(
    ds: Seq<NativeDistribution>,
    user: Seq<char>,
    denom: Seq<char>,
) -> bool {
    exists|i: int| 0 <= i < ds.len() && (#[trigger] ds[i]).user@ == user && ds[i].denom@ == denom
}

pub open spec fn distribution_pos(
    ds: Seq<NativeDistribution>,
    user: Seq<char>,
    denom: Seq<char>,
) -> int {
    choose|i: int| 0 <= i < ds.len() && (#[trigger] ds[i]).user@ == user && ds[i].denom@ == denom
}

/// The settlement of `user` for `denom` as `(user_index, pending_rewards)`, if any.
pub open spec fn distribution_of(
    ds: Seq<NativeDistribution>,
    user: Seq<char>,
    denom: Seq<char>,
) -> Option<(u128, u128)> {
    if has_distribution(ds, user, denom) {
        let d = ds[distribution_pos(ds, user, denom)];
        Some((d.user_index, d.pending_rewards))
    } else {
        None
    }
}

pub open spec fn unique_distributions(ds: Seq<NativeDistribution>) -> bool {
    forall|i: int, j: int|
        0 <= i < ds.len() && 0 <= j < ds.len() && (#[trigger] ds[i]).user@ == (#[trigger] ds[j]).user@
            && ds[i].denom@ == ds[j].denom@ ==> i == j
}

/// `ds` with the settlement of `user` for `denom` replaced, or added at the end.
pub open spec fn set_distribution(
    ds: Seq<NativeDistribution>,
    user: String,
    denom: String,
    user_index: u128,
    pending: u128,
) -> Seq<NativeDistribution> {
    let rec = NativeDistribution { user, denom, user_index, pending_rewards: pending };
    if has_distribution(ds, user@, denom@) {
        ds.update(distribution_pos(ds, user@, denom@), rec)
    } else {
        ds.push(rec)
    }
}

// ---- the ledger as a whole ----

impl LedgerState {
    /// The invariant of the ledger.
    pub open spec fn wf(&self) -> bool {
        &&& unique_users(self.weights)
        &&& forall|i: int|
            0 <= i < self.weights.len() ==> (#[trigger] self.weights[i]).effective_weight
                == effective_weight(self.weights[i].weight as int, self.minimum_eligible_weight as int)
        &&& self.total_weight == sum_effective(self.weights)
        &&& unique_denoms(self.indices)
        &&& sorted_denoms(self.indices)
        &&& unique_distributions(self.distributions)
        &&& forall|i: int|
            0 <= i < self.distributions.len() ==> settled_within(
                self.indices,
                #[trigger] self.distributions[i],
            )
    }

    /// What `user` can claim in `denom` now.
    pub open spec fn claimable(&self, user: Seq<char>, denom: Seq<char>) -> int {
        user_reward(
            index_of(self.indices, denom),
            distribution_of(self.distributions, user, denom),
            effective_weight_of(self.weights, user),
        )
    }
}

/// A settlement never runs ahead of its denomination's index, and nothing is pending in a
/// denomination that was never distributed.
pub open spec fn settled_within(ix: Seq<GlobalIndex>, d: NativeDistribution) -> bool {
    &&& d.user_index <= index_of(ix, d.denom@)
    &&& index_of(ix, d.denom@) == 0 ==> d.pending_rewards == 0
}

// ---- lemmas ----

pub proof fn lemma_user_pos(ws: Seq<UserWeightRecord>, i: int)
    requires
        unique_users(ws),
        0 <= i < ws.len(),
    ensures
        has_user(ws, ws[i].user@),
        user_pos(ws, ws[i].user@) == i,
        effective_weight_of(ws, ws[i].user@) == ws[i].effective_weight,
{
    assert(has_user(ws, ws[i].user@));
}

pub proof fn lemma_denom_pos(ix: Seq<GlobalIndex>, i: int)
    requires
        unique_denoms(ix),
        0 <= i < ix.len(),
    ensures
        has_denom(ix, ix[i].denom@),
        denom_pos(ix, ix[i].denom@) == i,
        index_of(ix, ix[i].denom@) == ix[i].index,
{
    assert(has_denom(ix, ix[i].denom@));
}

pub proof fn lemma_distribution_pos(ds: Seq<NativeDistribution>, i: int)
    requires
        unique_distributions(ds),
        0 <= i < ds.len(),
    ensures
        has_distribution(ds, ds[i].user@, ds[i].denom@),
        distribution_pos(ds, ds[i].user@, ds[i].denom@) == i,
        distribution_of(ds, ds[i].user@, ds[i].denom@) == Some(
            (ds[i].user_index, ds[i].pending_rewards),
        ),
{
    assert(has_distribution(ds, ds[i].user@, ds[i].denom@));
}

/// Setting an index changes that denomination's index alone.
pub proof fn lemma_set_index(ix: Seq<GlobalIndex>, denom: String, value: u128)
    requires
        sorted_denoms(ix),
    ensures
        unique_denoms(set_index(ix, denom, value)),
        sorted_denoms(set_index(ix, denom, value)),
        forall|d: Seq<char>|
            #![trigger index_of(set_index(ix, denom, value), d)]
            index_of(set_index(ix, denom, value), d) == if d == denom@ {
                value as int
            } else {
                index_of(ix, d)
            },
{
    let r = set_index(ix, denom, value);
    lemma_sorted_unique(ix);
    if has_denom(ix, denom@) {
        let p = denom_pos(ix, denom@);
        assert forall|i: int, j: int| 0 <= i < j < r.len() implies denom_lt(
            (#[trigger] r[i]).denom@,
            (#[trigger] r[j]).denom@,
        ) by {
            assert(denom_lt(ix[i].denom@, ix[j].denom@));
        }
        assert forall|i: int, j: int|
            0 <= i < r.len() && 0 <= j < r.len() && (#[trigger] r[i]).denom@ == (#[trigger] r[j]).denom@
            implies i == j by {
            if i != p && j != p {
                assert(ix[i].denom@ == ix[j].denom@);
            } else if i == p && j != p {
                assert(ix[j].denom@ == ix[p].denom@);
            } else if i != p && j == p {
                assert(ix[i].denom@ == ix[p].denom@);
            }
        }
        assert forall|d: Seq<char>| #[trigger]
            index_of(r, d) == if d == denom@ {
                value as int
            } else {
                index_of(ix, d)
            } by {
            if d == denom@ {
                lemma_denom_pos(r, p);
            } else if has_denom(ix, d) {
                let q = denom_pos(ix, d);
                lemma_denom_pos(ix, q);
                assert(q != p);
                assert(r[q] == ix[q]);
                lemma_denom_pos(r, q);
            } else {
                if has_denom(r, d) {
                    let q = denom_pos(r, d);
                    assert(q != p);
                    assert(ix[q].denom@ == d);
                }
            }
        }
    } else {
        let p = lower_count(ix, denom@);
        lemma_lower_count(ix, denom@);
        let rec = GlobalIndex { denom, index: value };
        assert forall|k: int| 0 <= k < r.len() implies #[trigger] r[k] == if k < p {
            ix[k]
        } else if k == p {
            rec
        } else {
            ix[k - 1]
        } by {}
        assert forall|k: int| 0 <= k < ix.len() implies (#[trigger] ix[k]).denom@ != denom@ by {
            if ix[k].denom@ == denom@ {
                assert(has_denom(ix, denom@));
            }
        }
        assert forall|i: int, j: int| 0 <= i < j < r.len() implies denom_lt(
            (#[trigger] r[i]).denom@,
            (#[trigger] r[j]).denom@,
        ) by {
            if j < p {
                assert(denom_lt(ix[i].denom@, ix[j].denom@));
            } else if i < p && j == p {
            } else if i < p {
                assert(denom_lt(ix[i].denom@, ix[j - 1].denom@));
            } else if i == p {
                assert(!denom_lt(ix[j - 1].denom@, denom@));
                lemma_denom_lt_total(ix[j - 1].denom@, denom@);
            } else {
                assert(denom_lt(ix[i - 1].denom@, ix[j - 1].denom@));
            }
        }
        lemma_sorted_unique(r);
        assert forall|d: Seq<char>| #[trigger]
            index_of(r, d) == if d == denom@ {
                value as int
            } else {
                index_of(ix, d)
            } by {
            if d == denom@ {
                lemma_denom_pos(r, p);
            } else if has_denom(ix, d) {
                let q = denom_pos(ix, d);
                lemma_denom_pos(ix, q);
                let q2 = if q < p {
                    q
                } else {
                    q + 1
                };
                assert(r[q2] == ix[q]);
                lemma_denom_pos(r, q2);
            } else {
                if has_denom(r, d) {
                    let q = denom_pos(r, d);
                    assert(q != p);
                    let q2 = if q < p {
                        q
                    } else {
                        q - 1
                    };
                    assert(ix[q2].denom@ == d);
                }
            }
        }
    }
}

/// Sorted indices hold each denomination once.
pub proof fn lemma_sorted_unique(ix: Seq<GlobalIndex>)
    requires
        sorted_denoms(ix),
    ensures
        unique_denoms(ix),
{
    assert forall|i: int, j: int|
        0 <= i < ix.len() && 0 <= j < ix.len() && (#[trigger] ix[i]).denom@ == (#[trigger] ix[j]).denom@
        implies i == j by {
        lemma_denom_lt_irreflexive(ix[i].denom@);
        if i < j {
            assert(denom_lt(ix[i].denom@, ix[j].denom@));
        } else if j < i {
            assert(denom_lt(ix[j].denom@, ix[i].denom@));
        }
    }
}

/// In sorted indices, the entries before `denom` are exactly the first `lower_count` ones.
pub proof fn lemma_lower_count(ix: Seq<GlobalIndex>, denom: Seq<char>)
    requires
        sorted_denoms(ix),
    ensures
        0 <= lower_count(ix, denom) <= ix.len(),
        forall|k: int| 0 <= k < lower_count(ix, denom) ==> denom_lt((#[trigger] ix[k]).denom@, denom),
        forall|k: int|
            lower_count(ix, denom) <= k < ix.len() ==> !denom_lt((#[trigger] ix[k]).denom@, denom),
    decreases ix.len(),
{
    if ix.len() > 0 {
        let m = ix.drop_last();
        assert(sorted_denoms(m)) by {
            assert forall|i: int, j: int| 0 <= i < j < m.len() implies denom_lt(
                (#[trigger] m[i]).denom@,
                (#[trigger] m[j]).denom@,
            ) by {
                assert(denom_lt(ix[i].denom@, ix[j].denom@));
            }
        }
        lemma_lower_count(m, denom);
        let c = lower_count(m, denom);
        let n = ix.len() - 1;
        if denom_lt(ix[n].denom@, denom) {
            assert forall|k: int| 0 <= k < n implies denom_lt((#[trigger] ix[k]).denom@, denom) by {
                assert(denom_lt(ix[k].denom@, ix[n].denom@));
                lemma_denom_lt_transitive(ix[k].denom@, ix[n].denom@, denom);
            }
            assert forall|k: int| 0 <= k < n implies denom_lt((#[trigger] m[k]).denom@, denom) by {
                assert(m[k] == ix[k]);
            }
            if c < n {
                assert(m[c] == ix[c]);
            }
        } else {
            assert forall|k: int| 0 <= k < c implies denom_lt((#[trigger] ix[k]).denom@, denom) by {
                assert(m[k] == ix[k]);
            }
            assert forall|k: int| c <= k < ix.len() implies !denom_lt((#[trigger] ix[k]).denom@, denom) by {
                if k < n {
                    assert(m[k] == ix[k]);
                }
            }
        }
    }
}

/// Setting a settlement changes that (participant, denomination) pair's settlement alone.
pub proof fn lemma_set_distribution(
    ds: Seq<NativeDistribution>,
    user: String,
    denom: String,
    user_index: u128,
    pending: u128,
)
    requires
        unique_distributions(ds),
    ensures
        unique_distributions(set_distribution(ds, user, denom, user_index, pending)),
        forall|u: Seq<char>, d: Seq<char>|
            #![trigger distribution_of(set_distribution(ds, user, denom, user_index, pending), u, d)]
            distribution_of(set_distribution(ds, user, denom, user_index, pending), u, d) == if u
                == user@ && d == denom@ {
                Some((user_index, pending))
            } else {
                distribution_of(ds, u, d)
            },
        forall|i: int|
            0 <= i < set_distribution(ds, user, denom, user_index, pending).len() ==> {
                let r = #[trigger] set_distribution(ds, user, denom, user_index, pending)[i];
                (r.user@ == user@ && r.denom@ == denom@ && r.user_index == user_index
                    && r.pending_rewards == pending) || (exists|k: int|
                    0 <= k < ds.len() && #[trigger] ds[k] == r)
            },
{
    let r = set_distribution(ds, user, denom, user_index, pending);
    let p = if has_distribution(ds, user@, denom@) {
        distribution_pos(ds, user@, denom@)
    } else {
        ds.len() as int
    };
    assert forall|i: int, j: int|
        0 <= i < r.len() && 0 <= j < r.len() && (#[trigger] r[i]).user@ == (#[trigger] r[j]).user@
            && r[i].denom@ == r[j].denom@ implies i == j by {
        if i != p && j != p {
            assert(ds[i].user@ == ds[j].user@);
        } else if i == p && j != p {
            assert(ds[j].user@ == user@ && ds[j].denom@ == denom@);
        } else if i != p && j == p {
            assert(ds[i].user@ == user@ && ds[i].denom@ == denom@);
        }
    }
    assert forall|u: Seq<char>, d: Seq<char>| #[trigger]
        distribution_of(r, u, d) == if u == user@ && d == denom@ {
            Some((user_index, pending))
        } else {
            distribution_of(ds, u, d)
        } by {
        if u == user@ && d == denom@ {
            lemma_distribution_pos(r, p);
        } else if has_distribution(ds, u, d) {
            let q = distribution_pos(ds, u, d);
            lemma_distribution_pos(ds, q);
            assert(q != p);
            assert(r[q] == ds[q]);
            lemma_distribution_pos(r, q);
        } else {
            if has_distribution(r, u, d) {
                let q = distribution_pos(r, u, d);
                assert(q != p);
                assert(ds[q].user@ == u && ds[q].denom@ == d);
            }
        }
    }
    assert forall|i: int| 0 <= i < r.len() implies {
        let x = #[trigger] r[i];
        (x.user@ == user@ && x.denom@ == denom@ && x.user_index == user_index
            && x.pending_rewards == pending) || (exists|k: int| 0 <= k < ds.len() && #[trigger] ds[k] == x)
    } by {
        if i != p {
            assert(r[i] == ds[i]);
        }
    }
}

pub proof fn lemma_sum_effective_nonneg(ws: Seq<UserWeightRecord>)
    ensures
        sum_effective(ws) >= 0,
    decreases ws.len(),
{
    if ws.len() > 0 {
        lemma_sum_effective_nonneg(ws.drop_last());
    }
}

pub proof fn lemma_sum_effective_update(ws: Seq<UserWeightRecord>, p: int, rec: UserWeightRecord)
    requires
        0 <= p < ws.len(),
    ensures
        sum_effective(ws.update(p, rec)) == sum_effective(ws) - ws[p].effective_weight
            + rec.effective_weight,
    decreases ws.len(),
{
    let r = ws.update(p, rec);
    if p == ws.len() - 1 {
        assert(r.drop_last() =~= ws.drop_last());
    } else {
        lemma_sum_effective_update(ws.drop_last(), p, rec);
        assert(r.drop_last() =~= ws.drop_last().update(p, rec));
    }
}

pub proof fn lemma_sum_effective_remove(ws: Seq<UserWeightRecord>, p: int)
    requires
        0 <= p < ws.len(),
    ensures
        sum_effective(ws.remove(p)) == sum_effective(ws) - ws[p].effective_weight,
    decreases ws.len(),
{
    let r = ws.remove(p);
    if p == ws.len() - 1 {
        assert(r =~= ws.drop_last());
    } else {
        lemma_sum_effective_remove(ws.drop_last(), p);
        assert(r.drop_last() =~= ws.drop_last().remove(p));
    }
}

/// What changing or adding one participant's weight does to the weights.
pub proof fn lemma_set_weight(ws: Seq<UserWeightRecord>, user: String, weight: u128, effective: u128)
    requires
        unique_users(ws),
    ensures
        unique_users(set_weight(ws, user, weight, effective)),
        sum_effective(set_weight(ws, user, weight, effective)) == sum_effective(ws)
            - effective_weight_of(ws, user@) + effective,
        forall|u: Seq<char>|
            #![trigger effective_weight_of(set_weight(ws, user, weight, effective), u)]
            effective_weight_of(set_weight(ws, user, weight, effective), u) == if u == user@ {
                effective as int
            } else {
                effective_weight_of(ws, u)
            },
        forall|i: int|
            0 <= i < set_weight(ws, user, weight, effective).len() ==> {
                let r = #[trigger] set_weight(ws, user, weight, effective)[i];
                (r.user@ == user@ && r.weight == weight && r.effective_weight == effective) || (
                exists|k: int| 0 <= k < ws.len() && #[trigger] ws[k] == r)
            },
{
    let r = set_weight(ws, user, weight, effective);
    let rec = UserWeightRecord { user, weight, effective_weight: effective };
    let p = if has_user(ws, user@) {
        user_pos(ws, user@)
    } else {
        ws.len() as int
    };
    if has_user(ws, user@) {
        lemma_sum_effective_update(ws, p, rec);
    } else {
        assert(r.drop_last() =~= ws);
    }
    assert forall|i: int, j: int|
        0 <= i < r.len() && 0 <= j < r.len() && (#[trigger] r[i]).user@ == (#[trigger] r[j]).user@
        implies i == j by {
        if i != p && j != p {
            assert(ws[i].user@ == ws[j].user@);
        } else if i == p && j != p {
            assert(ws[j].user@ == user@);
        } else if i != p && j == p {
            assert(ws[i].user@ == user@);
        }
    }
    assert forall|u: Seq<char>| #[trigger]
        effective_weight_of(r, u) == if u == user@ {
            effective as int
        } else {
            effective_weight_of(ws, u)
        } by {
        if u == user@ {
            lemma_user_pos(r, p);
        } else if has_user(ws, u) {
            let q = user_pos(ws, u);
            lemma_user_pos(ws, q);
            assert(r[q] == ws[q]);
            lemma_user_pos(r, q);
        } else {
            if has_user(r, u) {
                let q = user_pos(r, u);
                assert(ws[q].user@ == u);
            }
        }
    }
    assert forall|i: int| 0 <= i < r.len() implies {
        let x = #[trigger] r[i];
        (x.user@ == user@ && x.weight == weight && x.effective_weight == effective) || (exists|k: int|
            0 <= k < ws.len() && #[trigger] ws[k] == x)
    } by {
        if i != p {
            assert(r[i] == ws[i]);
        }
    }
}

/// What removing one participant does to the weights.
pub proof fn lemma_remove_weight(ws: Seq<UserWeightRecord>, user: Seq<char>)
    requires
        unique_users(ws),
    ensures
        unique_users(remove_weight(ws, user)),
        sum_effective(remove_weight(ws, user)) == sum_effective(ws) - effective_weight_of(ws, user),
        sum_effective(remove_weight(ws, user)) >= 0,
        forall|u: Seq<char>|
            #![trigger effective_weight_of(remove_weight(ws, user), u)]
            effective_weight_of(remove_weight(ws, user), u) == if u == user {
                0
            } else {
                effective_weight_of(ws, u)
            },
        forall|i: int|
            0 <= i < remove_weight(ws, user).len() ==> exists|k: int|
                0 <= k < ws.len() && #[trigger] ws[k] == #[trigger] remove_weight(ws, user)[i],
{
    let r = remove_weight(ws, user);
    lemma_sum_effective_nonneg(r);
    if has_user(ws, user) {
        let p = user_pos(ws, user);
        lemma_sum_effective_remove(ws, p);
        assert forall|i: int| 0 <= i < r.len() implies r[i] == ws[if i < p { i } else { i + 1 }] by {}
        assert forall|i: int, j: int|
            0 <= i < r.len() && 0 <= j < r.len() && (#[trigger] r[i]).user@ == (#[trigger] r[j]).user@
            implies i == j by {
            let a = if i < p { i } else { i + 1 };
            let b = if j < p { j } else { j + 1 };
            assert(ws[a].user@ == ws[b].user@);
        }
        assert forall|u: Seq<char>| #[trigger]
            effective_weight_of(r, u) == if u == user {
                0
            } else {
                effective_weight_of(ws, u)
            } by {
            if has_user(r, u) {
                let q = user_pos(r, u);
                let a = if q < p { q } else { q + 1 };
                assert(ws[a] == r[q]);
                lemma_user_pos(ws, a);
                lemma_user_pos(r, q);
            } else if has_user(ws, u) {
                let q = user_pos(ws, u);
                if q != p {
                    let a = if q < p { q } else { q - 1 };
                    assert(r[a] == ws[q]);
                }
            }
        }
        assert forall|i: int| 0 <= i < r.len() implies exists|k: int|
            0 <= k < ws.len() && #[trigger] ws[k] == #[trigger] r[i] by {
            let a = if i < p { i } else { i + 1 };
            assert(ws[a] == r[i]);
        }
    } else {
        assert forall|i: int| 0 <= i < r.len() implies exists|k: int|
            0 <= k < ws.len() && #[trigger] ws[k] == #[trigger] r[i] by {
            assert(ws[i] == r[i]);
        }
    }
}

/// A participant's effective weight is part of the total.
pub proof fn lemma_effective_within_sum(ws: Seq<UserWeightRecord>, user: Seq<char>)
    requires
        unique_users(ws),
    ensures
        0 <= effective_weight_of(ws, user) <= sum_effective(ws),
{
    lemma_remove_weight(ws, user);
}

// ---- executable lookups ----

impl Ledger {
    /// Position of `user`'s weight record.
    pub fn find_user(&self, user: &String) -> (r: Option<usize>)
        requires
            unique_users(self.user_weights@),
        ensures
            match r {
                Some(i) => i < self.user_weights@.len() && self.user_weights@[i as int].user@ == user@
                    && has_user(self.user_weights@, user@) && user_pos(self.user_weights@, user@)
                    == i,
                None => !has_user(self.user_weights@, user@),
            },
    {
        let mut i: usize = 0;
        while i < self.user_weights.len()
            invariant
                0 <= i <= self.user_weights@.len(),
                unique_users(self.user_weights@),
                forall|k: int| 0 <= k < i ==> (#[trigger] self.user_weights@[k]).user@ != user@,
            decreases self.user_weights@.len() - i,
        {
            if self.user_weights[i].user == *user {
                proof {
                    lemma_user_pos(self.user_weights@, i as int);
                }
                return Some(i);
            }
            i += 1;
        }
        None
    }

    /// Position of `denom`'s global index.
    pub fn find_index(&self, denom: &String) -> (r: Option<usize>)
        requires
            unique_denoms(self.global_indices@),
        ensures
            match r {
                Some(i) => i < self.global_indices@.len() && self.global_indices@[i as int].denom@
                    == denom@ && has_denom(self.global_indices@, denom@) && denom_pos(
                    self.global_indices@,
                    denom@,
                ) == i,
                None => !has_denom(self.global_indices@, denom@),
            },
    {
        let mut i: usize = 0;
        while i < self.global_indices.len()
            invariant
                0 <= i <= self.global_indices@.len(),
                unique_denoms(self.global_indices@),
                forall|k: int| 0 <= k < i ==> (#[trigger] self.global_indices@[k]).denom@ != denom@,
            decreases self.global_indices@.len() - i,
        {
            if self.global_indices[i].denom == *denom {
                proof {
                    lemma_denom_pos(self.global_indices@, i as int);
                }
                return Some(i);
            }
            i += 1;
        }
        None
    }

    /// The global index of `denom`, zero when nothing was distributed in it.
    pub fn global_index(&self, denom: &String) -> (r: u128)
        requires
            unique_denoms(self.global_indices@),
        ensures
            r == index_of(self.global_indices@, denom@),
    {
        match self.find_index(denom) {
            Some(i) => self.global_indices[i].index,
            None => 0,
        }
    }

    /// Position of the settlement of `user` for `denom`.
    pub fn find_distribution(&self, user: &String, denom: &String) -> (r: Option<usize>)
        requires
            unique_distributions(self.distributions@),
        ensures
            match r {
                Some(i) => i < self.distributions@.len() && self.distributions@[i as int].user@
                    == user@ && self.distributions@[i as int].denom@ == denom@ && distribution_of(
                    self.distributions@,
                    user@,
                    denom@,
                ) == Some(
                    (
                        self.distributions@[i as int].user_index,
                        self.distributions@[i as int].pending_rewards,
                    ),
                ) && has_distribution(self.distributions@, user@, denom@) && distribution_pos(
                    self.distributions@,
                    user@,
                    denom@,
                ) == i,
                None => !has_distribution(self.distributions@, user@, denom@),
            },
    {
        let mut i: usize = 0;
        while i < self.distributions.len()
            invariant
                0 <= i <= self.distributions@.len(),
                unique_distributions(self.distributions@),
                forall|k: int|
                    0 <= k < i ==> !((#[trigger] self.distributions@[k]).user@ == user@
                        && self.distributions@[k].denom@ == denom@),
            decreases self.distributions@.len() - i,
        {
            if self.distributions[i].user == *user && self.distributions[i].denom == *denom {
                proof {
                    lemma_distribution_pos(self.distributions@, i as int);
                }
                return Some(i);
            }
            i += 1;
        }
        None
    }

    /// The settlement of `user` for `denom` as `(user_index, pending_rewards)`, if any.
    pub fn distribution(&self, user: &String, denom: &String) -> (r: Option<(u128, u128)>)
        requires
            unique_distributions(self.distributions@),
        ensures
            r == distribution_of(self.distributions@, user@, denom@),
    {
        match self.find_distribution(user, denom) {
            Some(i) => Some((self.distributions[i].user_index, self.distributions[i].pending_rewards)),
            None => None,
        }
    }

    /// The effective weight of `user`, zero when the ledger does not know them.
    pub fn effective_weight(&self, user: &String) -> (r: u128)
        requires
            unique_users(self.user_weights@),
        ensures
            r == effective_weight_of(self.user_weights@, user@),
    {
        match self.find_user(user) {
            Some(i) => self.user_weights[i].effective_weight,
            None => 0,
        }
    }

    /// Sets the index of `denom` to `value`.
    pub(crate) fn store_index(&mut self, denom: &String, value: u128)
        requires
            unique_denoms(old(self).global_indices@),
            sorted_denoms(old(self).global_indices@),
        ensures
            final(self)@ == (LedgerState {
                indices: set_index(old(self)@.indices, *denom, value),
                ..old(self)@
            }),
    {
        let rec = GlobalIndex { denom: denom.clone(), index: value };
        match self.find_index(denom) {
            Some(i) => {
                self.global_indices.set(i, rec);
            },
            None => {
                let ghost ix = self.global_indices@;
                let n = self.global_indices.len();
                let mut p: usize = 0;
                let mut searching = true;
                while searching && p < n
                    invariant
                        0 <= p <= n == ix.len(),
                        self.global_indices@ == ix,
                        forall|k: int| 0 <= k < p ==> denom_lt((#[trigger] ix[k]).denom@, denom@),
                        !searching ==> p < n && !denom_lt(ix[p as int].denom@, denom@),
                    decreases n - p, if searching {
                        1int
                    } else {
                        0int
                    },
                {
                    if denom_less(&self.global_indices[p].denom, denom) {
                        p += 1;
                    } else {
                        searching = false;
                    }
                }
                proof {
                    lemma_lower_count(ix, denom@);
                    let c = lower_count(ix, denom@);
                    if (p as int) < c {
                        assert(denom_lt(ix[p as int].denom@, denom@));
                    } else if (p as int) > c {
                        assert(!denom_lt(ix[c].denom@, denom@));
                    }
                }
                self.global_indices.insert(p, rec);
            },
        }
    }

    /// Sets the settlement of `user` for `denom`.
    pub(crate) fn store_distribution(
        &mut self,
        user: &String,
        denom: &String,
        user_index: u128,
        pending: u128,
    )
        requires
            unique_distributions(old(self).distributions@),
        ensures
            final(self)@ == (LedgerState {
                distributions: set_distribution(
                    old(self)@.distributions,
                    *user,
                    *denom,
                    user_index,
                    pending,
                ),
                ..old(self)@
            }),
    {
        let rec = NativeDistribution {
            user: user.clone(),
            denom: denom.clone(),
            user_index,
            pending_rewards: pending,
        };
        match self.find_distribution(user, denom) {
            Some(i) => {
                self.distributions.set(i, rec);
            },
            None => {
                self.distributions.push(rec);
            },
        }
    }
}

impl UserWeightRecord {
    pub fn copy(&self) -> (r: Self)
        ensures
            r == *self,
    {
        UserWeightRecord {
            user: self.user.clone(),
            weight: self.weight,
            effective_weight: self.effective_weight,
        }
    }
}

impl GlobalIndex {
    pub fn copy(&self) -> (r: Self)
        ensures
            r == *self,
    {
        GlobalIndex { denom: self.denom.clone(), index: self.index }
    }
}

impl NativeDistribution {
    pub fn copy(&self) -> (r: Self)
        ensures
            r == *self,
    {
        NativeDistribution {
            user: self.user.clone(),
            denom: self.denom.clone(),
            user_index: self.user_index,
            pending_rewards: self.pending_rewards,
        }
    }
}

impl Ledger {
    /// A copy of the ledger, so that an operation can be applied in full or not at all.
    pub fn duplicate(&self) -> (r: Ledger)
        ensures
            r@ == self@,
    {
        let mut user_weights: Vec<UserWeightRecord> = Vec::new();
        let mut i: usize = 0;
        while i < self.user_weights.len()
            invariant
                0 <= i <= self.user_weights@.len(),
                user_weights@ == self.user_weights@.take(i as int),
            decreases self.user_weights@.len() - i,
        {
            user_weights.push(self.user_weights[i].copy());
            i += 1;
            assert(user_weights@ =~= self.user_weights@.take(i as int));
        }
        let mut global_indices: Vec<GlobalIndex> = Vec::new();
        let mut i: usize = 0;
        while i < self.global_indices.len()
            invariant
                0 <= i <= self.global_indices@.len(),
                global_indices@ == self.global_indices@.take(i as int),
            decreases self.global_indices@.len() - i,
        {
            global_indices.push(self.global_indices[i].copy());
            i += 1;
            assert(global_indices@ =~= self.global_indices@.take(i as int));
        }
        let mut distributions: Vec<NativeDistribution> = Vec::new();
        let mut i: usize = 0;
        while i < self.distributions.len()
            invariant
                0 <= i <= self.distributions@.len(),
                distributions@ == self.distributions@.take(i as int),
            decreases self.distributions@.len() - i,
        {
            distributions.push(self.distributions[i].copy());
            i += 1;
            assert(distributions@ =~= self.distributions@.take(i as int));
        }
        assert(user_weights@ =~= self.user_weights@);
        assert(global_indices@ =~= self.global_indices@);
        assert(distributions@ =~= self.distributions@);
        Ledger {
            squad_contract: self.squad_contract.clone(),
            minimum_eligible_weight: self.minimum_eligible_weight,
            total_weight: self.total_weight,
            user_weights,
            global_indices,
            distributions,
        }
    }
}

/// Raising one denomination's index keeps the ledger well formed.
pub proof fn lemma_raise_index(s: LedgerState, denom: String, value: u128)
    requires
        s.wf(),
        value >= index_of(s.indices, denom@),
    ensures
        (LedgerState { indices: set_index(s.indices, denom, value), ..s }).wf(),
        forall|d: Seq<char>|
            #![trigger index_of(set_index(s.indices, denom, value), d)]
            index_of(set_index(s.indices, denom, value), d) >= index_of(s.indices, d),
{
    lemma_set_index(s.indices, denom, value);
    let t = LedgerState { indices: set_index(s.indices, denom, value), ..s };
    assert forall|i: int| 0 <= i < t.distributions.len() implies settled_within(
        t.indices,
        #[trigger] t.distributions[i],
    ) by {
        assert(settled_within(s.indices, s.distributions[i]));
    }
}

/// Resetting a settlement to the current index with nothing pending keeps the ledger well
/// formed.
pub proof fn lemma_reset_distribution(s: LedgerState, user: String, denom: String)
    requires
        s.wf(),
        0 <= index_of(s.indices, denom@) <= u128::MAX,
    ensures
        (LedgerState {
            distributions: set_distribution(
                s.distributions,
                user,
                denom,
                index_of(s.indices, denom@) as u128,
                0,
            ),
            ..s
        }).wf(),
{
    let g = index_of(s.indices, denom@) as u128;
    lemma_set_distribution(s.distributions, user, denom, g, 0);
    let r = set_distribution(s.distributions, user, denom, g, 0);
    assert forall|i: int| 0 <= i < r.len() implies settled_within(s.indices, #[trigger] r[i]) by {
        let x = r[i];
        if !(x.user@ == user@ && x.denom@ == denom@ && x.user_index == g && x.pending_rewards == 0) {
            let k = choose|k: int| 0 <= k < s.distributions.len() && #[trigger] s.distributions[k] == x;
            assert(settled_within(s.indices, s.distributions[k]));
        }
    }
}

/// A prefix of non-negative weights sums to no more than the whole.
pub proof fn lemma_sum_prefix_bound(ws: Seq<UserWeightRecord>, n: int)
    requires
        0 <= n <= ws.len(),
    ensures
        sum_effective(ws.take(n)) <= sum_effective(ws),
    decreases ws.len() - n,
{
    if n < ws.len() {
        lemma_sum_prefix_bound(ws, n + 1);
        assert(ws.take(n + 1).drop_last() =~= ws.take(n));
    } else {
        assert(ws.take(n) =~= ws);
    }
}

impl Ledger {
    /// Whether the ledger holds its invariant, for a ledger read back from storage.
    pub fn is_well_formed(&self) -> (r: bool)
        ensures
            r == self@.wf(),
    {
        let ghost ws = self.user_weights@;
        let ghost ix = self.global_indices@;
        let ghost ds = self.distributions@;
        let n = self.user_weights.len();
        let mut i: usize = 0;
        while i < n
            invariant
                0 <= i <= n == ws.len(),
                ws == self.user_weights@,
                forall|a: int, b: int|
                    0 <= a < i && 0 <= b < i && (#[trigger] ws[a]).user@ == (#[trigger] ws[b]).user@
                        ==> a == b,
            decreases n - i,
        {
            let mut j: usize = 0;
            while j < i
                invariant
                    0 <= j <= i < n == ws.len(),
                    ws == self.user_weights@,
                    forall|b: int| 0 <= b < j ==> (#[trigger] ws[b]).user@ != ws[i as int].user@,
                decreases i - j,
            {
                if self.user_weights[j].user == self.user_weights[i].user {
                    return false;
                }
                j += 1;
            }
            i += 1;
        }
        let mut total: u128 = 0;
        let mut i: usize = 0;
        assert(ws.take(0) =~= Seq::<UserWeightRecord>::empty());
        while i < n
            invariant
                0 <= i <= n == ws.len(),
                ws == self.user_weights@,
                unique_users(ws),
                forall|k: int|
                    0 <= k < i ==> (#[trigger] ws[k]).effective_weight == effective_weight(
                        ws[k].weight as int,
                        self.minimum_eligible_weight as int,
                    ),
                total == sum_effective(ws.take(i as int)),
            decreases n - i,
        {
            let w = &self.user_weights[i];
            let expected = if w.weight >= self.minimum_eligible_weight {
                w.weight
            } else {
                0
            };
            if w.effective_weight != expected {
                return false;
            }
            assert(ws.take(i + 1).drop_last() =~= ws.take(i as int));
            match total.checked_add(w.effective_weight) {
                Some(t) => {
                    total = t;
                },
                None => {
                    proof {
                        lemma_sum_prefix_bound(ws, i + 1);
                    }
                    return false;
                },
            }
            i += 1;
        }
        assert(ws.take(n as int) =~= ws);
        if total != self.total_weight {
            return false;
        }
        let m = self.global_indices.len();
        let mut i: usize = 0;
        while i < m
            invariant
                0 <= i <= m == ix.len(),
                ix == self.global_indices@,
                forall|a: int, b: int|
                    0 <= a < b < i ==> denom_lt((#[trigger] ix[a]).denom@, (#[trigger] ix[b]).denom@),
            decreases m - i,
        {
            let mut j: usize = 0;
            while j < i
                invariant
                    0 <= j <= i < m == ix.len(),
                    ix == self.global_indices@,
                    forall|a: int, b: int|
                        0 <= a < b < i ==> denom_lt((#[trigger] ix[a]).denom@, (#[trigger] ix[b]).denom@),
                    forall|a: int| 0 <= a < j ==> denom_lt((#[trigger] ix[a]).denom@, ix[i as int].denom@),
                decreases i - j,
            {
                if !denom_less(&self.global_indices[j].denom, &self.global_indices[i].denom) {
                    return false;
                }
                j += 1;
            }
            i += 1;
        }
        proof {
            lemma_sorted_unique(ix);
        }
        let l = self.distributions.len();
        let mut i: usize = 0;
        while i < l
            invariant
                0 <= i <= l == ds.len(),
                ds == self.distributions@,
                forall|a: int, b: int|
                    0 <= a < i && 0 <= b < i && (#[trigger] ds[a]).user@ == (#[trigger] ds[b]).user@
                        && ds[a].denom@ == ds[b].denom@ ==> a == b,
            decreases l - i,
        {
            let mut j: usize = 0;
            while j < i
                invariant
                    0 <= j <= i < l == ds.len(),
                    ds == self.distributions@,
                    forall|b: int|
                        0 <= b < j ==> !((#[trigger] ds[b]).user@ == ds[i as int].user@
                            && ds[b].denom@ == ds[i as int].denom@),
                decreases i - j,
            {
                if self.distributions[j].user == self.distributions[i].user
                    && self.distributions[j].denom == self.distributions[i].denom {
                    return false;
                }
                j += 1;
            }
            i += 1;
        }
        let mut i: usize = 0;
        while i < l
            invariant
                0 <= i <= l == ds.len(),
                ds == self.distributions@,
                ix == self.global_indices@,
                unique_denoms(ix),
                forall|k: int| 0 <= k < i ==> settled_within(ix, #[trigger] ds[k]),
            decreases l - i,
        {
            let d = &self.distributions[i];
            let g = self.global_index(&d.denom);
            if d.user_index > g || (g == 0 && d.pending_rewards != 0) {
                return false;
            }
            i += 1;
        }
        true
    }
}

} // verus!
