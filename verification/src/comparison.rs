//! Equality and ordering of `money_with_currency`: equality is the currency
//! code plus the amount's value, and the total order sorts by code, then by
//! amount. `money_compare` is the strict comparison that refuses mixed
//! currencies.
use crate::decimal::{
    common_scale, decimal_order, difference_mantissa, lemma_normalized_unique, lemma_pow10_add,
    lemma_pow10_pos, pow10, value_lt, Decimal,
};
use crate::errors::MoneyError;
use crate::model::{money_with_currency, same_currency, valid_value};
use crate::text::{chars_of, compare_chars, lemma_lex_total, lemma_lex_trans, lex_lt};
use std::cmp::Ordering;
use vstd::prelude::*;

verus! {

/// The order of two values: by currency code, then by amount.
pub open spec fn money_order(a: money_with_currency, b: money_with_currency) -> Ordering {
    let ca = a.currency_of().code@;
    let cb = b.currency_of().code@;
    if lex_lt(ca, cb) {
        Ordering::Less
    } else if lex_lt(cb, ca) {
        Ordering::Greater
    } else if value_lt(a.amount_of(), b.amount_of()) {
        Ordering::Less
    } else if value_lt(b.amount_of(), a.amount_of()) {
        Ordering::Greater
    } else {
        Ordering::Equal
    }
}

/// Same currency code and same amount.
pub open spec fn money_equal(a: money_with_currency, b: money_with_currency) -> bool {
    &&& a.currency_of().code@ == b.currency_of().code@
    &&& a.amount_of().same_value(b.amount_of())
}

impl PartialEq for money_with_currency {
    fn eq(&self, other: &Self) -> (r: bool) {
        let a = self.decimal();
        let b = other.decimal();
        let same_code = compare_chars(&chars_of(self.currency_code()), &chars_of(other.currency_code()))
            == 0;
        proof {
            if a.same_value(b) {
                lemma_normalized_unique(a, b);
            }
        }
        same_code && a.mantissa == b.mantissa && a.scale == b.scale
    }
}

impl vstd::std_specs::cmp::PartialEqSpecImpl for money_with_currency {
    open spec fn obeys_eq_spec() -> bool {
        true
    }

    open spec fn eq_spec(&self, other: &Self) -> bool {
        money_equal(*self, *other)
    }
}

impl Eq for money_with_currency {

}

impl PartialOrd for money_with_currency {
    fn partial_cmp(&self, other: &Self) -> (r: Option<Ordering>) {
        let a = self.decimal();
        let b = other.decimal();
        let by_code = compare_chars(&chars_of(self.currency_code()), &chars_of(other.currency_code()));
        proof {
            lemma_lex_total(self.currency_of().code@, other.currency_of().code@);
        }
        if by_code < 0 {
            Some(Ordering::Less)
        } else if by_code > 0 {
            Some(Ordering::Greater)
        } else {
            let by_amount = decimal_order(a, b);
            if by_amount < 0 {
                Some(Ordering::Less)
            } else if by_amount > 0 {
                Some(Ordering::Greater)
            } else {
                Some(Ordering::Equal)
            }
        }
    }
}

impl vstd::std_specs::cmp::PartialOrdSpecImpl for money_with_currency {
    open spec fn obeys_partial_cmp_spec() -> bool {
        true
    }

    open spec fn partial_cmp_spec(&self, other: &Self) -> Option<Ordering> {
        Some(money_order(*self, *other))
    }
}

proof fn lemma_value_lt_total(a: Decimal, b: Decimal)
    ensures
        a.same_value(b) || value_lt(a, b) || value_lt(b, a),
        !(value_lt(a, b) && value_lt(b, a)),
        !(a.same_value(b) && value_lt(a, b)),
{
}

/// Two values are equal exactly when the order puts neither first.
pub proof fn law_order_matches_equality(a: money_with_currency, b: money_with_currency)
    ensures
        money_order(a, b) == Ordering::Equal <==> money_equal(a, b),
{
    lemma_lex_total(a.currency_of().code@, b.currency_of().code@);
    lemma_value_lt_total(a.amount_of(), b.amount_of());
}

/// The order is antisymmetric: `a` sorts before `b` exactly when `b` sorts after `a`.
pub proof fn law_order_antisymmetric(a: money_with_currency, b: money_with_currency)
    ensures
        money_order(a, b) == Ordering::Less <==> money_order(b, a) == Ordering::Greater,
        money_order(a, b) == Ordering::Equal <==> money_order(b, a) == Ordering::Equal,
{
    lemma_lex_total(a.currency_of().code@, b.currency_of().code@);
    lemma_value_lt_total(a.amount_of(), b.amount_of());
}

proof fn lemma_value_lt_trans(a: Decimal, b: Decimal, c: Decimal)
    requires
        value_lt(a, b) || a.same_value(b),
        value_lt(b, c) || b.same_value(c),
        value_lt(a, b) || value_lt(b, c),
    ensures
        value_lt(a, c),
{
    let pa = crate::decimal::pow10(a.scale as nat);
    let pb = crate::decimal::pow10(b.scale as nat);
    let pc = crate::decimal::pow10(c.scale as nat);
    crate::decimal::lemma_pow10_pos(a.scale as nat);
    crate::decimal::lemma_pow10_pos(b.scale as nat);
    crate::decimal::lemma_pow10_pos(c.scale as nat);
    let (am, bm, cm) = (a.mantissa as int, b.mantissa as int, c.mantissa as int);
    assert(am * pc < cm * pa) by (nonlinear_arith)
        requires
            am * pb <= bm * pa,
            bm * pc <= cm * pb,
            am * pb < bm * pa || bm * pc < cm * pb,
            pa > 0,
            pb > 0,
            pc > 0,
    {
        assert(am * pb * pc <= bm * pa * pc);
        assert(bm * pc * pa <= cm * pb * pa);
        assert(am * pb * pc < cm * pb * pa);
    }
}

/// The order is transitive.
pub proof fn law_order_transitive(a: money_with_currency, b: money_with_currency, c: money_with_currency)
    requires
        money_order(a, b) == Ordering::Less,
        money_order(b, c) == Ordering::Less,
    ensures
        money_order(a, c) == Ordering::Less,
{
    let (ca, cb, cc) = (a.currency_of().code@, b.currency_of().code@, c.currency_of().code@);
    lemma_lex_total(ca, cb);
    lemma_lex_total(cb, cc);
    lemma_lex_total(ca, cc);
    if lex_lt(ca, cb) && lex_lt(cb, cc) {
        lemma_lex_trans(ca, cb, cc);
    } else if lex_lt(ca, cb) {
        assert(cb == cc);
    } else if lex_lt(cb, cc) {
        assert(ca == cb);
    } else {
        assert(ca == cb && cb == cc);
        lemma_value_lt_total(a.amount_of(), b.amount_of());
        lemma_value_lt_total(b.amount_of(), c.amount_of());
        lemma_value_lt_trans(a.amount_of(), b.amount_of(), c.amount_of());
    }
}

/// For values, equality is identity: two values are equal exactly when they
/// are the same value.
pub proof fn law_equality_is_identity(a: money_with_currency, b: money_with_currency)
    requires
        valid_value(a),
        valid_value(b),
    ensures
        money_equal(a, b) <==> a == b,
{
    if money_equal(a, b) {
        lemma_normalized_unique(a.amount_of(), b.amount_of());
        assert(a.currency_of() == b.currency_of());
        crate::model::lemma_money_eq(a, b);
    }
}

/// What the strict comparison gives: the currency mismatch, or -1, 0 or 1 by
/// amount.
pub open spec fn compare_result(a: money_with_currency, b: money_with_currency) -> Result<
    i32,
    MoneyError,
> {
    if !same_currency(a, b) {
        Err(
            MoneyError::CurrencyMismatch {
                expected: a.currency_of().code,
                actual: b.currency_of().code,
            },
        )
    } else if value_lt(a.amount_of(), b.amount_of()) {
        Ok(-1i32)
    } else if value_lt(b.amount_of(), a.amount_of()) {
        Ok(1i32)
    } else {
        Ok(0i32)
    }
}

/// Compares amounts as rusty-money's `Money::compare` does: -1, 0 or 1, and
/// a currency mismatch for values of different currencies.
pub fn money_compare(left: money_with_currency, right: money_with_currency) -> (r: Result<
    i32,
    MoneyError,
>)
    ensures
        r == compare_result(left, right),
{
    left.require_same_currency(&right)?;
    let order = decimal_order(left.decimal(), right.decimal());
    if order < 0 {
        Ok(-1)
    } else if order > 0 {
        Ok(1)
    } else {
        Ok(0)
    }
}

/// `value_lt` compares by the sign of the exact difference: written at the
/// larger scale, `a`'s mantissa is below `b`'s exactly when `a` is below `b`.
proof fn lemma_value_lt_is_difference_sign(a: Decimal, b: Decimal)
    ensures
        value_lt(a, b) <==> difference_mantissa(a, b) < 0,
        value_lt(b, a) <==> difference_mantissa(a, b) > 0,
{
    let cs = common_scale(a, b);
    let mn: nat = if a.scale <= b.scale {
        a.scale as nat
    } else {
        b.scale as nat
    };
    let ka = (cs - a.scale) as nat;
    let kb = (cs - b.scale) as nat;
    lemma_pow10_add(ka, mn);
    lemma_pow10_add(kb, mn);
    assert((ka + mn) as nat == b.scale as nat);
    assert((kb + mn) as nat == a.scale as nat);
    lemma_pow10_pos(mn);
    let pa = pow10(ka);
    let pb = pow10(kb);
    let pm = pow10(mn);
    let (am, bm) = (a.mantissa as int, b.mantissa as int);
    assert(am * pow10(b.scale as nat) == (am * pa) * pm) by (nonlinear_arith)
        requires
            pow10(b.scale as nat) == pa * pm,
    ;
    assert(bm * pow10(a.scale as nat) == (bm * pb) * pm) by (nonlinear_arith)
        requires
            pow10(a.scale as nat) == pb * pm,
    ;
    let d = difference_mantissa(a, b);
    assert(d == am * pa - bm * pb);
    assert((am * pa) * pm < (bm * pb) * pm <==> d < 0) by (nonlinear_arith)
        requires
            d == am * pa - bm * pb,
            pm > 0,
    ;
    assert((bm * pb) * pm < (am * pa) * pm <==> d > 0) by (nonlinear_arith)
        requires
            d == am * pa - bm * pb,
            pm > 0,
    ;
}

/// The strict comparison is the sign of the exact difference: for two values
/// of one currency, `money_compare` gives -1, 0 or 1 as `a - b` (the amounts
/// written at the larger scale and subtracted) is negative, zero or positive,
/// and it agrees with the total order behind `<` and sorting.
pub proof fn law_compare_is_sign_of_difference(a: money_with_currency, b: money_with_currency)
    requires
        same_currency(a, b),
    ensures
        compare_result(a, b) == Ok::<i32, MoneyError>(
            if difference_mantissa(a.amount_of(), b.amount_of()) < 0 {
                -1i32
            } else if difference_mantissa(a.amount_of(), b.amount_of()) > 0 {
                1i32
            } else {
                0i32
            },
        ),
        compare_result(a, b) == Ok::<i32, MoneyError>(-1i32) <==> money_order(a, b)
            == Ordering::Less,
        compare_result(a, b) == Ok::<i32, MoneyError>(0i32) <==> money_order(a, b)
            == Ordering::Equal,
        compare_result(a, b) == Ok::<i32, MoneyError>(1i32) <==> money_order(a, b)
            == Ordering::Greater,
{
    lemma_value_lt_is_difference_sign(a.amount_of(), b.amount_of());
    lemma_value_lt_total(a.amount_of(), b.amount_of());
    lemma_lex_total(a.currency_of().code@, b.currency_of().code@);
}

impl core::hash::Hash for money_with_currency {
    /// Hashes the currency code, then the amount as a `rust_decimal::Decimal`,
    /// so that equal values hash alike.
    #[verifier::external_body]
    fn hash<H: core::hash::Hasher>(&self, state: &mut H) {
        self.currency_code().hash(state);
        let d = self.decimal();
        rust_decimal::Decimal::from_i128_with_scale(d.mantissa, d.scale).hash(state);
    }
}

} // verus!
