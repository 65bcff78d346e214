//! Fixed-point reward indices with 18 fractional digits, held as their atomic units.

use cosmwasm_std::{Decimal, Uint128};
use vstd::prelude::*;

verus! {

/// Atomic units in one whole unit of an index.
pub const DECIMAL_FRACTIONAL: u128 = 1_000_000_000_000_000_000;

/// `numerator / denominator` as an index, in atomic units, rounded down.
pub open spec fn ratio_atomics(numerator: int, denominator: int) -> int {
    numerator * DECIMAL_FRACTIONAL / denominator
}

/// `amount` times the index `atomics`, rounded down to a whole unit.
pub open spec fn scaled_floor(amount: int, atomics: int) -> int {
    amount * atomics / (DECIMAL_FRACTIONAL as int)
}

/// Relies on `cosmwasm_std::Decimal::checked_from_ratio`: the quotient rounded down to 18
/// fractional digits, computed in 256 bits, and an error when it does not fit in 128 bits.
#[verifier::external_body]
pub(crate) fn decimal_from_ratio(numerator: u128, denominator: u128) -> (r: Option<u128>)
    requires
        denominator > 0,
    ensures
        ratio_atomics(numerator as int, denominator as int) <= u128::MAX ==> r == Some(
            ratio_atomics(numerator as int, denominator as int) as u128,
        ),
        ratio_atomics(numerator as int, denominator as int) > u128::MAX ==> r is None,
{
    Decimal::checked_from_ratio(numerator, denominator).ok().map(|d| d.atomics().u128())
}

/// Relies on `cosmwasm_std::Uint128::checked_multiply_ratio`, which `Uint128 * Decimal` uses
/// with the index's atomics over those of `Decimal::one()` (10^18): the product rounded down,
/// computed in 256 bits, and an error when it does not fit in 128 bits.
#[verifier::external_body]
pub(crate) fn mul_floor(amount: u128, atomics: u128) -> (r: Option<u128>)
    ensures
        scaled_floor(amount as int, atomics as int) <= u128::MAX ==> r == Some(
            scaled_floor(amount as int, atomics as int) as u128,
        ),
        scaled_floor(amount as int, atomics as int) > u128::MAX ==> r is None,
{
    Uint128::new(amount)
        .checked_multiply_ratio(atomics, Decimal::one().atomics())
        .ok()
        .map(|v| v.u128())
}

} // verus!
