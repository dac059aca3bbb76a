//! The value converter: translating an amount recorded under one rebase
//! multiplier into its equivalent under another.
//!
//! Multipliers are fixed-point decimals held as their atomic representation:
//! a multiplier `m` stands for the rational `m / DEC_ONE`. All conversions
//! truncate toward zero, so repeated partial conversions never overcount.

use vstd::prelude::*;

use crate::error::ContractError;

verus! {

/// Atomic units per whole multiplier unit: multipliers carry eighteen
/// fractional decimal digits.
pub const DEC_ONE: u128 = 1_000_000_000_000_000_000;

/// The atomic representation of the ratio `target / basis`, truncated.
pub open spec fn ratio_atomics(basis: int, target: int) -> int {
    target * (DEC_ONE as int) / basis
}

/// The value of `amount` recorded under `basis`, expressed under `target`:
/// `amount * (target / basis)`, truncating first the ratio and then the
/// product, exactly as every call site applies it.
pub open spec fn conv_value(amount: int, basis: int, target: int) -> int {
    amount * ratio_atomics(basis, target) / (DEC_ONE as int)
}

/// The exact outcome of the executable converter: a zero basis signals a
/// missing rebase record, a ratio or product beyond the amount range is an
/// overflow, and otherwise the truncated converted value is returned.
pub open spec fn spec_convert(amount: int, basis: int, target: int) -> Result<
    u128,
    ContractError,
> {
    if basis == 0 {
        Err(ContractError::NoRebaseRecord)
    } else if ratio_atomics(basis, target) > u128::MAX {
        Err(ContractError::Overflow)
    } else if conv_value(amount, basis, target) > u128::MAX {
        Err(ContractError::Overflow)
    } else {
        Ok(conv_value(amount, basis, target) as u128)
    }
}

/// Relies on cosmwasm_std::Decimal::checked_div: dividing the fixed-point
/// numbers with atomics `target` and `basis` yields the fixed-point number
/// with atomics `target * DEC_ONE / basis` (truncated), or an error when that
/// does not fit the atomic range.
#[verifier::external_body]
fn dec_div_atomics(target: u128, basis: u128) -> (r: Option<u128>)
    requires
        basis > 0,
    ensures
        r == (if ratio_atomics(basis as int, target as int) <= u128::MAX {
            Some(ratio_atomics(basis as int, target as int) as u128)
        } else {
            None::<u128>
        }),
{
    let t = cosmwasm_std::Decimal::new(cosmwasm_std::Uint128::new(target));
    let b = cosmwasm_std::Decimal::new(cosmwasm_std::Uint128::new(basis));
    match t.checked_div(b) {
        Ok(d) => Some(d.atomics().u128()),
        Err(_) => None,
    }
}

/// Relies on cosmwasm_std::Uint128::checked_mul_floor with a Decimal factor:
/// the product is `x * atomics / DEC_ONE`, truncated, or an error when it
/// does not fit.
#[verifier::external_body]
fn mul_floor_atomics(x: u128, atomics: u128) -> (r: Option<u128>)
    ensures
        r == (if x * atomics / (DEC_ONE as int) <= u128::MAX {
            Some((x * atomics / (DEC_ONE as int)) as u128)
        } else {
            None::<u128>
        }),
{
    let d = cosmwasm_std::Decimal::new(cosmwasm_std::Uint128::new(atomics));
    match cosmwasm_std::Uint128::new(x).checked_mul_floor(d) {
        Ok(v) => Some(v.u128()),
        Err(_) => None,
    }
}

/// Relies on cosmwasm_std::Decimal::checked_from_ratio: the ratio `num / den`
/// as a fixed-point number, with atomics `num * DEC_ONE / den` (truncated),
/// or an error when that does not fit the atomic range.
#[verifier::external_body]
pub(crate) fn dec_from_ratio(num: u128, den: u128) -> (r: Option<u128>)
    requires
        den > 0,
    ensures
        r == (if num * (DEC_ONE as int) / (den as int) <= u128::MAX {
            Some((num * (DEC_ONE as int) / (den as int)) as u128)
        } else {
            None::<u128>
        }),
{
    let n = cosmwasm_std::Uint128::new(num);
    let d = cosmwasm_std::Uint128::new(den);
    match cosmwasm_std::Decimal::checked_from_ratio(n, d) {
        Ok(m) => Some(m.atomics().u128()),
        Err(_) => None,
    }
}

/// Convert `amount` recorded under `basis` to its value under `target`,
/// truncating toward zero.
pub fn convert(amount: u128, basis: u128, target: u128) -> (r: Result<u128, ContractError>)
    ensures
        r == spec_convert(amount as int, basis as int, target as int),
{
    if basis == 0 {
        return Err(ContractError::NoRebaseRecord);
    }
    let ratio = match dec_div_atomics(target, basis) {
        Some(a) => a,
        None => {
            return Err(ContractError::Overflow);
        },
    };
    match mul_floor_atomics(amount, ratio) {
        Some(v) => Ok(v),
        None => Err(ContractError::Overflow),
    }
}

/// Conversion identity: converting an amount between equal positive
/// multipliers returns it unchanged.
pub proof fn lemma_convert_identity(x: u128, m: u128)
    requires
        m > 0,
    ensures
        spec_convert(x as int, m as int, m as int) == Ok::<u128, ContractError>(x),
{
    let e = DEC_ONE as int;
    vstd::arithmetic::div_mod::lemma_div_multiples_vanish(e, m as int);
    assert(ratio_atomics(m as int, m as int) == e);
    vstd::arithmetic::mul::lemma_mul_is_commutative(x as int, e);
    vstd::arithmetic::div_mod::lemma_div_multiples_vanish(x as int, e);
    assert(conv_value(x as int, m as int, m as int) == x as int);
}

/// Truncating division splits a sum into at most its parts plus one unit:
/// the parts never exceed the whole, the whole never exceeds the parts by
/// more than one.
proof fn lemma_floor_div_add(x: int, y: int, e: int)
    requires
        e > 0,
        x >= 0,
        y >= 0,
    ensures
        x / e + y / e <= (x + y) / e,
        (x + y) / e <= x / e + y / e + 1,
{
    vstd::arithmetic::div_mod::lemma_fundamental_div_mod(x, e);
    vstd::arithmetic::div_mod::lemma_fundamental_div_mod(y, e);
    vstd::arithmetic::div_mod::lemma_mod_bound(x, e);
    vstd::arithmetic::div_mod::lemma_mod_bound(y, e);
    let qx = x / e;
    let qy = y / e;
    let rx = x % e;
    let ry = y % e;
    assert(x + y == (qx + qy) * e + (rx + ry)) by (nonlinear_arith)
        requires
            x == e * qx + rx,
            y == e * qy + ry,
    ;
    if rx + ry < e {
        vstd::arithmetic::div_mod::lemma_fundamental_div_mod_converse(x + y, e, qx + qy, rx + ry);
    } else {
        assert(x + y == (qx + qy + 1) * e + (rx + ry - e)) by (nonlinear_arith)
            requires
                x + y == (qx + qy) * e + (rx + ry),
        ;
        vstd::arithmetic::div_mod::lemma_fundamental_div_mod_converse(
            x + y,
            e,
            qx + qy + 1,
            rx + ry - e,
        );
    }
}

/// Conservation of converted value under splitting: converting two parts
/// separately never overcounts the whole's conversion, and undercounts it
/// by at most one atomic unit. Repeated partial conversions therefore never
/// pay out more than one conversion of the whole would.
pub proof fn lemma_convert_additive(a1: int, a2: int, basis: int, target: int)
    requires
        basis > 0,
        a1 >= 0,
        a2 >= 0,
        target >= 0,
    ensures
        conv_value(a1, basis, target) + conv_value(a2, basis, target) <= conv_value(
            a1 + a2,
            basis,
            target,
        ),
        conv_value(a1 + a2, basis, target) <= conv_value(a1, basis, target) + conv_value(
            a2,
            basis,
            target,
        ) + 1,
{
    let e = DEC_ONE as int;
    let r = ratio_atomics(basis, target);
    assert(target * e >= 0) by (nonlinear_arith)
        requires
            target >= 0,
            e > 0,
    ;
    vstd::arithmetic::div_mod::lemma_div_pos_is_pos(target * e, basis);
    assert((a1 + a2) * r == a1 * r + a2 * r) by (nonlinear_arith);
    assert(a1 * r >= 0 && a2 * r >= 0) by (nonlinear_arith)
        requires
            a1 >= 0,
            a2 >= 0,
            r >= 0,
    ;
    lemma_floor_div_add(a1 * r, a2 * r, e);
}

} // verus!
