//! Arithmetic on `money_with_currency`: checked sums, products and quotients,
//! rounding, and splitting an amount into parts by count or by weights.
use crate::decimal::{
    abs_int, decimal_difference, decimal_product, decimal_quotient, decimal_sum, lemma_normalize,
    difference_representable, fits_model, product_representable, sum_representable,
    lemma_pow10_add, lemma_pow10_pos, pow10, round_dp, spec_round_dp, Decimal, Rounding,
    MAX_MANTISSA,
};
use crate::errors::MoneyError;
use crate::model::{
    binary_result, exact_money_difference, exact_money_product, exact_money_sum,
    money_with_currency, same_currency, scaled_result,
};
use vstd::prelude::*;

verus! {

/// Sum of two values of one currency.
pub fn money_add(left: money_with_currency, right: money_with_currency) -> (r: Result<
    money_with_currency,
    MoneyError,
>)
    ensures
        r == binary_result(left, right, decimal_sum(left.amount_of(), right.amount_of())),
        same_currency(left, right) && sum_representable(left.amount_of(), right.amount_of()) ==> r
            == Ok::<money_with_currency, MoneyError>(exact_money_sum(left, right)),
        same_currency(left, right) && left.amount_of().scale == 0 && right.amount_of().scale == 0
            && !fits_model(left.amount_of().mantissa + right.amount_of().mantissa, 0) ==> r
            == Err::<money_with_currency, MoneyError>(MoneyError::Overflow),
{
    left.checked_add(right)
}

/// Difference of two values of one currency.
pub fn money_subtract(left: money_with_currency, right: money_with_currency) -> (r: Result<
    money_with_currency,
    MoneyError,
>)
    ensures
        r == binary_result(left, right, decimal_difference(left.amount_of(), right.amount_of())),
        same_currency(left, right) && difference_representable(left.amount_of(), right.amount_of())
            ==> r == Ok::<money_with_currency, MoneyError>(exact_money_difference(left, right)),
        same_currency(left, right) && left.amount_of().scale == 0 && right.amount_of().scale == 0
            && !fits_model(left.amount_of().mantissa - right.amount_of().mantissa, 0) ==> r
            == Err::<money_with_currency, MoneyError>(MoneyError::Overflow),
{
    left.checked_sub(right)
}

/// The value times a decimal factor.
pub fn money_multiply(value: money_with_currency, multiplier: Decimal) -> (r: Result<
    money_with_currency,
    MoneyError,
>)
    requires
        multiplier.wf(),
    ensures
        r == scaled_result(value, decimal_product(value.amount_of(), multiplier)),
        product_representable(value.amount_of(), multiplier) ==> r == Ok::<
            money_with_currency,
            MoneyError,
        >(exact_money_product(value, multiplier)),
        value.amount_of().scale == 0 && multiplier.scale == 0 && !fits_model(
            value.amount_of().mantissa * multiplier.mantissa,
            0,
        ) ==> r == Err::<money_with_currency, MoneyError>(MoneyError::Overflow),
{
    value.checked_mul(multiplier)
}

/// The value divided by a decimal divisor; a zero divisor is refused.
pub fn money_divide(value: money_with_currency, divisor: Decimal) -> (r: Result<
    money_with_currency,
    MoneyError,
>)
    requires
        divisor.wf(),
    ensures
        divisor.mantissa == 0 ==> r == Err::<money_with_currency, MoneyError>(
            MoneyError::DivisionByZero,
        ),
        divisor.mantissa != 0 ==> r == scaled_result(
            value,
            decimal_quotient(value.amount_of(), divisor),
        ),
{
    value.checked_div(divisor)
}

/// The absolute value.
pub fn money_abs(value: money_with_currency) -> (r: money_with_currency)
    ensures
        r.currency_of() == value.currency_of(),
        r.amount_of().mantissa == abs_int(value.amount_of().mantissa as int),
        r.amount_of().scale == value.amount_of().scale,
{
    let d = value.decimal();
    let a = d.abs();
    proof {
        lemma_normalize(a.mantissa as int, a.scale as nat);
    }
    let r = value.with_decimal(a);
    proof {
        lemma_sign_change_normalized(d, a);
    }
    r
}

/// The negation.
pub fn money_negate(value: money_with_currency) -> (r: money_with_currency)
    ensures
        r.currency_of() == value.currency_of(),
        r.amount_of().mantissa == -value.amount_of().mantissa,
        r.amount_of().scale == value.amount_of().scale,
{
    let d = value.decimal();
    let n = d.neg();
    let r = value.with_decimal(n);
    proof {
        lemma_sign_change_normalized(d, n);
    }
    r
}

/// Changing the sign of a normalized decimal keeps it normalized.
proof fn lemma_sign_change_normalized(d: Decimal, e: Decimal)
    requires
        d.is_normalized(),
        d.wf(),
        e.scale == d.scale,
        e.mantissa == d.mantissa || e.mantissa == -d.mantissa,
    ensures
        e.normalized() == e,
{
    if e.mantissa != 0 && e.scale > 0 {
        assert((e.mantissa as int) % 10 != 0) by {
            if (e.mantissa as int) % 10 == 0 {
                assert((d.mantissa as int) % 10 == 0);
            }
        }
    }
}

/// Rounding rules for `money_round`.
#[allow(non_camel_case_types)]
#[derive(Clone, Copy, Debug, PartialEq, Eq, Structural)]
pub enum money_rounding {
    half_up,
    half_down,
    half_even,
}

pub open spec fn rounding_rule(r: money_rounding) -> Rounding {
    match r {
        money_rounding::half_up => Rounding::MidpointAwayFromZero,
        money_rounding::half_down => Rounding::MidpointTowardZero,
        money_rounding::half_even => Rounding::MidpointNearestEven,
    }
}

/// The midpoint rule a rounding names: half up rounds midpoints away from
/// zero, half down toward zero, half even to the even digit.
pub fn rounding_strategy(value: money_rounding) -> (r: Rounding)
    ensures
        r == rounding_rule(value),
{
    match value {
        money_rounding::half_up => Rounding::MidpointAwayFromZero,
        money_rounding::half_down => Rounding::MidpointTowardZero,
        money_rounding::half_even => Rounding::MidpointNearestEven,
    }
}

/// Rounds the amount to `digits` fractional digits (0 to 28) by the rule.
pub fn money_round(value: money_with_currency, digits: i32, strategy: money_rounding) -> (r: Result<
    money_with_currency,
    String,
>)
    ensures
        !(0 <= digits <= 28) ==> (r matches Err(e) && e@ == "digits must be between 0 and 28"@),
        0 <= digits <= 28 ==> (r matches Ok(v) && v.currency_of() == value.currency_of()
            && v.amount_of() == spec_round_dp(
            value.amount_of(),
            digits as nat,
            rounding_rule(strategy),
        ).normalized()),
        r matches Ok(v) ==> v.amount_of().scale <= digits,
{
    if digits < 0 || digits > 28 {
        return Err("digits must be between 0 and 28".to_string());
    }
    let rounded = round_dp(value.decimal(), digits as u32, rounding_strategy(strategy));
    proof {
        lemma_normalize(rounded.mantissa as int, rounded.scale as nat);
    }
    Ok(value.with_decimal(rounded))
}

/// A normalized decimal is its own normalization.
proof fn lemma_normalized_fixed(d: Decimal)
    requires
        d.is_normalized(),
    ensures
        d.normalized() == d,
{
}

/// Rounding keeps the nearest number with `digits` fractional digits, and the
/// rule decides only exact midpoints: `half_up` rounds them away from zero,
/// `half_down` toward zero, and `half_even` to the neighbour whose last kept
/// digit is even. An amount with no more than `digits` fractional digits is
/// kept as it is. (`money_round` gives this rounding, normalized.)
pub proof fn law_round_to_nearest(d: Decimal, digits: nat, strategy: money_rounding)
    requires
        d.wf(),
    ensures
        d.scale <= digits ==> spec_round_dp(d, digits, rounding_rule(strategy)) == d,
        digits < d.scale ==> ({
            let r = spec_round_dp(d, digits, rounding_rule(strategy));
            let p = pow10((d.scale - digits) as nat) as int;
            let gap = d.mantissa - r.mantissa * p;
            &&& r.scale == digits
            &&& 2 * abs_int(gap) <= p
            &&& 2 * abs_int(gap) == p ==> match strategy {
                money_rounding::half_up => abs_int(r.mantissa as int) * p > abs_int(
                    d.mantissa as int,
                ),
                money_rounding::half_down => abs_int(r.mantissa as int) * p < abs_int(
                    d.mantissa as int,
                ),
                money_rounding::half_even => r.mantissa % 2 == 0,
            }
        }),
{
    if digits < d.scale {
        let k = (d.scale - digits) as nat;
        let p = pow10(k) as int;
        let a = abs_int(d.mantissa as int) as int;
        let q = a / p;
        let rem = a % p;
        let half = 5 * pow10((k - 1) as nat) as int;
        assert(pow10(k) == 10 * pow10((k - 1) as nat));
        assert(2 * half == p);
        crate::decimal::lemma_pow10_pos((k - 1) as nat);
        assert(p >= 10);
        vstd::arithmetic::div_mod::lemma_fundamental_div_mod(a, p);
        vstd::arithmetic::div_mod::lemma_mod_pos_bound(a, p);
        assert(a == p * q + rem);
        assert(q >= 0) by (nonlinear_arith)
            requires
                a == p * q + rem,
                p > rem,
                rem >= 0,
                a >= 0,
                p >= 10,
        ;
        assert(q + 1 <= MAX_MANTISSA) by (nonlinear_arith)
            requires
                a == p * q + rem,
                p >= 10,
                rem >= 0,
                a <= MAX_MANTISSA,
                q >= 0,
        {
            assert(p * q >= 10 * q);
        }
        let rule = rounding_rule(strategy);
        let r = spec_round_dp(d, digits, rule);
        let up = match rule {
            Rounding::MidpointAwayFromZero => rem >= half,
            Rounding::MidpointTowardZero => rem > half,
            Rounding::MidpointNearestEven => rem > half || (rem == half && q % 2 == 1),
            Rounding::ToZero => false,
        };
        let q2: int = if up {
            q + 1
        } else {
            q
        };
        assert(r.mantissa == (if d.mantissa < 0 { -q2 } else { q2 }));
        assert(abs_int(r.mantissa as int) == q2);
        let gap = d.mantissa - r.mantissa * p;
        assert(a - q2 * p == (if up { rem - p } else { rem })) by (nonlinear_arith)
            requires
                a == p * q + rem,
                q2 == (if up { q + 1 } else { q }),
        ;
        assert(abs_int(gap) == abs_int(a - q2 * p)) by (nonlinear_arith)
            requires
                gap == d.mantissa - r.mantissa * p,
                r.mantissa == (if d.mantissa < 0 { -q2 } else { q2 }),
                a == (if d.mantissa < 0 { -d.mantissa } else { d.mantissa as int }),
        ;
        if strategy == money_rounding::half_even && 2 * abs_int(gap) == p {
            assert(q2 % 2 == 0);
            if d.mantissa < 0 {
                assert((-q2) % 2 == 0) by (nonlinear_arith)
                    requires
                        q2 % 2 == 0,
                ;
            }
        }
        if strategy == money_rounding::half_up && 2 * abs_int(gap) == p {
            assert(q2 * p > a) by (nonlinear_arith)
                requires
                    q2 == q + 1,
                    a == p * q + rem,
                    rem < p,
            ;
        }
        if strategy == money_rounding::half_down && 2 * abs_int(gap) == p {
            assert(q2 * p < a) by (nonlinear_arith)
                requires
                    q2 == q,
                    a == p * q + rem,
                    rem == half,
                    half > 0,
            ;
        }
    }
}

/// Rounding a value that was already rounded to the same digits by the same
/// rule changes nothing.
pub proof fn law_round_idempotent(d: Decimal, digits: nat, rule: Rounding)
    ensures
        spec_round_dp(spec_round_dp(d, digits, rule).normalized(), digits, rule).normalized()
            == spec_round_dp(d, digits, rule).normalized(),
{
    let r = spec_round_dp(d, digits, rule);
    lemma_normalize(r.mantissa as int, r.scale as nat);
    let n = r.normalized();
    assert(n.scale <= digits);
    lemma_normalized_fixed(n);
}

// ---------------------------------------------------------------------------
// Splitting and allocation
// ---------------------------------------------------------------------------

/// The amount floored to whole minor units of a currency with `exponent`
/// fractional digits.
pub open spec fn floored_minor_units(d: Decimal, exponent: nat) -> int {
    if d.scale > exponent {
        (d.mantissa as int) / (pow10((d.scale - exponent) as nat) as int)
    } else {
        d.mantissa * pow10((exponent - d.scale) as nat)
    }
}

/// `d` is exactly `minor` minor units, written with at most `exponent`
/// fractional digits.
pub open spec fn holds_minor(d: Decimal, minor: int, exponent: nat) -> bool {
    &&& d.scale <= exponent
    &&& d.mantissa * pow10((exponent - d.scale) as nat) == minor
}

/// Some decimal within the model holds exactly `minor` minor units.
pub open spec fn representable_minor(minor: int, exponent: nat) -> bool {
    exists|j: nat|
        j <= exponent && minor % (#[trigger] pow10(j) as int) == 0 && abs_int(minor / (pow10(j) as int))
            <= MAX_MANTISSA
}

pub open spec fn fits_i128(x: int) -> bool {
    i128::MIN <= x <= i128::MAX
}

/// The minor units of part `i` when `total` is split into `n` parts: the
/// floored share, plus one for each of the first `total mod n` parts.
pub open spec fn split_share_minor(total: int, n: nat, i: int) -> int {
    total / (n as int) + if i < total % (n as int) {
        1int
    } else {
        0int
    }
}

/// When `Money::split` succeeds: the floored total fits 128 bits, and each
/// distinct share has an exact decimal.
pub open spec fn split_fits(d: Decimal, exponent: nat, n: nat) -> bool {
    let total = floored_minor_units(d, exponent);
    let base = total / (n as int);
    &&& fits_i128(total)
    &&& representable_minor(base, exponent)
    &&& (total % (n as int) > 0 ==> representable_minor(base + 1, exponent))
}


/// `Money::split` on an amount of a currency with `exponent` fractional
/// digits. Trusted, as its source computes it: the amount is floored to whole
/// minor units, each of `parts` shares gets the floored quotient, and the
/// first `total mod parts` shares one minor unit more; each share is written
/// with at most `exponent` fractional digits. It fails, with an overflow,
/// exactly when the floored total does not fit 128 bits or a share has no
/// exact decimal.
#[verifier::external_body]
fn split_shares(amount: Decimal, exponent: u32, parts: u32) -> (r: Result<Vec<Decimal>, MoneyError>)
    requires
        amount.wf(),
        exponent <= 28,
        parts >= 1,
    ensures
        r is Ok <==> split_fits(amount, exponent as nat, parts as nat),
        r matches Err(e) ==> e == MoneyError::Overflow,
        r matches Ok(s) ==> s@.len() == parts && forall|i: int|
            0 <= i < parts ==> (#[trigger] s@[i]).wf() && holds_minor(
                s@[i],
                split_share_minor(floored_minor_units(amount, exponent as nat), parts as nat, i),
                exponent as nat,
            ),
{
    let currency = rusty_money::iso::Currency { exponent, ..*rusty_money::iso::USD };
    let d = rust_decimal::Decimal::from_i128_with_scale(amount.mantissa, amount.scale);
    match rusty_money::Money::from_decimal(d, &currency).split(parts) {
        Ok(shares) => Ok(
            shares.iter().map(
                |s| Decimal { mantissa: s.amount().mantissa(), scale: s.amount().scale() },
            ).collect(),
        ),
        Err(_) => Err(MoneyError::Overflow),
    }
}

/// The sum of the weights.
pub open spec fn weight_sum(w: Seq<u32>) -> int
    decreases w.len(),
{
    if w.len() == 0 {
        0
    } else {
        weight_sum(w.drop_last()) + w.last()
    }
}

/// The floored share of weight `i` in `total` minor units: the floored
/// quotient of the total by the weight sum, times the weight, plus the
/// floored part of the remainder that the weight takes.
pub open spec fn allocation_base(total: int, w: Seq<u32>, i: int) -> int {
    let sum = weight_sum(w);
    (total / sum) * w[i] + ((total % sum) * w[i]) / sum
}

/// The floored shares of the first `k` weights, summed.
pub open spec fn allocation_base_sum(total: int, w: Seq<u32>, k: nat) -> int
    decreases k,
{
    if k == 0 {
        0
    } else {
        allocation_base_sum(total, w, (k - 1) as nat) + allocation_base(total, w, k - 1)
    }
}

/// The minor units of share `i`: its floored share, plus one for each of the
/// first shares while minor units of the total remain unallocated.
pub open spec fn allocation_share_minor(total: int, w: Seq<u32>, i: int) -> int {
    allocation_base(total, w, i) + if i < total - allocation_base_sum(total, w, w.len()) {
        1int
    } else {
        0int
    }
}

/// The checks `Money::allocate` makes pass: the floored total fits 128 bits
/// and each share has an exact decimal.
pub open spec fn allocation_fits(d: Decimal, exponent: nat, w: Seq<u32>) -> bool {
    let total = floored_minor_units(d, exponent);
    &&& fits_i128(total)
    &&& forall|i: int|
        0 <= i < w.len() ==> representable_minor(
            #[trigger] allocation_share_minor(total, w, i),
            exponent,
        )
}

/// Minor units of each decimal, summed.
pub open spec fn minor_sum(s: Seq<Decimal>, exponent: nat) -> int
    decreases s.len(),
{
    if s.len() == 0 {
        0
    } else {
        minor_sum(s.drop_last(), exponent) + s.last().mantissa * pow10(
            (exponent - s.last().scale) as nat,
        )
    }
}

/// `Money::allocate` on an amount of a currency with `exponent` fractional
/// digits, by positive weights. Trusted, as its source computes it: the
/// amount is floored to whole minor units; share `i` gets
/// `allocation_share_minor` of them (its floored share by weight, plus one
/// while minor units remain, first shares first), written with at most
/// `exponent` fractional digits; the shares add up to the floored amount (the
/// documented conservation of the total). Its only failure for positive
/// weights is an overflow, which comes when the floored total does not fit 128
/// bits or a share has no exact decimal. That it succeeds otherwise is not
/// stated: its last step reserves the result's storage and reports a refused
/// reservation as an overflow too, which depends on the machine.
#[verifier::external_body]
fn allocate_shares(amount: Decimal, exponent: u32, weights: Vec<u32>) -> (r: Result<
    Vec<Decimal>,
    MoneyError,
>)
    requires
        amount.wf(),
        exponent <= 28,
        1 <= weights@.len() <= 10000,
        forall|i: int| 0 <= i < weights@.len() ==> #[trigger] weights@[i] >= 1,
    ensures
        r matches Err(e) ==> e == MoneyError::Overflow,
        !allocation_fits(amount, exponent as nat, weights@) ==> r is Err,
        r matches Ok(s) ==> s@.len() == weights@.len() && (forall|i: int|
            0 <= i < s@.len() ==> (#[trigger] s@[i]).wf() && s@[i].scale <= exponent) && minor_sum(
            s@,
            exponent as nat,
        ) == floored_minor_units(amount, exponent as nat),
        r matches Ok(s) ==> forall|i: int|
            0 <= i < s@.len() ==> holds_minor(
                #[trigger] s@[i],
                allocation_share_minor(floored_minor_units(amount, exponent as nat), weights@, i),
                exponent as nat,
            ),
{
    let currency = rusty_money::iso::Currency { exponent, ..*rusty_money::iso::USD };
    let d = rust_decimal::Decimal::from_i128_with_scale(amount.mantissa, amount.scale);
    match rusty_money::Money::from_decimal(d, &currency).allocate(weights) {
        Ok(shares) => Ok(
            shares.iter().map(
                |s| Decimal { mantissa: s.amount().mantissa(), scale: s.amount().scale() },
            ).collect(),
        ),
        Err(_) => Err(MoneyError::Overflow),
    }
}

/// Minor units of each value's amount, summed.
pub open spec fn money_minor_sum(vs: Seq<money_with_currency>, exponent: nat) -> int
    decreases vs.len(),
{
    if vs.len() == 0 {
        0
    } else {
        money_minor_sum(vs.drop_last(), exponent) + vs.last().amount_of().mantissa * pow10(
            (exponent - vs.last().amount_of().scale) as nat,
        )
    }
}

/// Normalizing keeps the minor units a decimal holds.
pub proof fn lemma_holds_minor_normalized(d: Decimal, minor: int, exponent: nat)
    requires
        holds_minor(d, minor, exponent),
    ensures
        holds_minor(d.normalized(), minor, exponent),
{
    lemma_normalize(d.mantissa as int, d.scale as nat);
    let n = d.normalized();
    let (ds, ns) = (d.scale as nat, n.scale as nat);
    let (dm, nm) = (d.mantissa as int, n.mantissa as int);
    lemma_pow10_add(ns, (exponent - ns) as nat);
    lemma_pow10_add(ds, (exponent - ds) as nat);
    lemma_pow10_add(ns, (ds - ns) as nat);
    lemma_pow10_pos(ns);
    let p_ns = pow10(ns);
    let p_ds = pow10(ds);
    let p_e = pow10(exponent);
    let a = pow10((exponent - ns) as nat);
    let b = pow10((exponent - ds) as nat);
    let c = pow10((ds - ns) as nat);
    assert(nm * a == dm * b) by (nonlinear_arith)
        requires
            dm * p_ns == nm * p_ds,
            p_e == p_ns * a,
            p_e == p_ds * b,
            p_ds == p_ns * c,
            p_ns > 0,
    {
        assert(nm * a * p_ns == nm * p_e);
        assert(dm * b * p_ns == dm * p_ns * b);
        assert(dm * p_ns * b == nm * p_ds * b);
        assert(nm * p_ds * b == nm * p_e);
    }
}

/// Part `i` of `n`: shares `split_share_minor` add up to the total.
proof fn lemma_split_sum(total: int, n: nat, k: nat)
    requires
        n >= 1,
        k <= n,
    ensures
        split_prefix_sum(total, n, k) == (k as int) * (total / (n as int)) + if k as int <= total
            % (n as int) {
            k as int
        } else {
            total % (n as int)
        },
    decreases k,
{
    if k > 0 {
        let k1 = (k - 1) as nat;
        lemma_split_sum(total, n, k1);
        let b = total / (n as int);
        let m = total % (n as int);
        assert(0 <= m < n);
        assert(split_prefix_sum(total, n, k) == split_prefix_sum(total, n, k1) + split_share_minor(
            total,
            n,
            k1 as int,
        ));
        assert(split_share_minor(total, n, k1 as int) == b + if (k1 as int) < m {
            1int
        } else {
            0int
        });
        assert((k1 as int) * b + b == (k as int) * b) by (nonlinear_arith)
            requires
                k1 + 1 == k,
        ;
    } else {
        let b = total / (n as int);
        assert(0 <= total % (n as int));
        assert((k as int) * b == 0) by (nonlinear_arith)
            requires
                k == 0,
        ;
    }
}

/// The first `k` shares of a split, summed.
pub open spec fn split_prefix_sum(total: int, n: nat, k: nat) -> int
    decreases k,
{
    if k == 0 {
        0
    } else {
        split_prefix_sum(total, n, (k - 1) as nat) + split_share_minor(total, n, k - 1)
    }
}

/// Splits the value into `parts` parts (1 to 10000) as rusty-money does:
/// the amount floored to whole minor units, shared equally, the first parts
/// taking the remaining minor units one each. The parts add up to the floored
/// amount.
pub fn money_split(value: money_with_currency, parts: i32) -> (r: Result<
    Vec<money_with_currency>,
    String,
>)
    ensures
        !(1 <= parts <= 10000) ==> (r matches Err(e) && e@ == "parts must be between 1 and 10000"@),
        1 <= parts <= 10000 && split_fits(
            value.amount_of(),
            value.currency_of().exponent as nat,
            parts as nat,
        ) ==> r is Ok,
        1 <= parts <= 10000 && !split_fits(
            value.amount_of(),
            value.currency_of().exponent as nat,
            parts as nat,
        ) ==> (r matches Err(e) && e@ == MoneyError::Overflow.message_spec()),
        r matches Ok(vs) ==> vs@.len() == parts && forall|i: int|
            0 <= i < vs@.len() ==> (#[trigger] vs@[i]).currency_of() == value.currency_of()
                && holds_minor(
                vs@[i].amount_of(),
                split_share_minor(
                    floored_minor_units(value.amount_of(), value.currency_of().exponent as nat),
                    parts as nat,
                    i,
                ),
                value.currency_of().exponent as nat,
            ),
        r matches Ok(vs) ==> money_minor_sum(vs@, value.currency_of().exponent as nat)
            == floored_minor_units(value.amount_of(), value.currency_of().exponent as nat),
{
    if parts < 1 || parts > 10000 {
        return Err("parts must be between 1 and 10000".to_string());
    }
    let currency = value.currency_ref();
    let exponent = currency.exponent;
    let shares = match split_shares(value.decimal(), exponent, parts as u32) {
        Ok(s) => s,
        Err(e) => {
            return Err(e.message());
        },
    };
    let ghost total = floored_minor_units(value.amount_of(), exponent as nat);
    let mut out: Vec<money_with_currency> = Vec::new();
    let mut i: usize = 0;
    while i < shares.len()
        invariant
            shares@.len() == parts,
            1 <= parts <= 10000,
            i <= shares@.len(),
            out@.len() == i,
            currency == value.currency_of(),
            exponent == currency.exponent,
            total == floored_minor_units(value.amount_of(), exponent as nat),
            forall|j: int|
                0 <= j < parts ==> (#[trigger] shares@[j]).wf() && holds_minor(
                    shares@[j],
                    split_share_minor(total, parts as nat, j),
                    exponent as nat,
                ),
            forall|j: int|
                0 <= j < i ==> (#[trigger] out@[j]).currency_of() == currency && holds_minor(
                    out@[j].amount_of(),
                    split_share_minor(total, parts as nat, j),
                    exponent as nat,
                ),
            money_minor_sum(out@, exponent as nat) == split_prefix_sum(total, parts as nat, i as nat),
        decreases shares@.len() - i,
    {
        let share = shares[i];
        let v = value.with_decimal(share);
        proof {
            lemma_holds_minor_normalized(share, split_share_minor(total, parts as nat, i as int), exponent as nat);
        }
        let ghost before = out@;
        out.push(v);
        proof {
            assert(out@.drop_last() =~= before);
        }
        i = i + 1;
    }
    proof {
        lemma_split_sum(total, parts as nat, parts as nat);
        assert(total == (parts as int) * (total / (parts as int)) + total % (parts as int)) by (
        nonlinear_arith)
            requires
                parts >= 1,
        ;
    }
    Ok(out)
}

/// Allocates the value by positive weights (at most 10000 of them) as
/// rusty-money's `Money::allocate` does; the parts add up to the amount
/// floored to whole minor units.
pub fn money_allocate(value: money_with_currency, weights: Vec<i32>) -> (r: Result<
    Vec<money_with_currency>,
    String,
>)
    ensures
        weights@.len() > 10000 ==> (r matches Err(e) && e@
            == "allocation accepts at most 10000 weights"@),
        weights@.len() <= 10000 && (exists|i: int| 0 <= i < weights@.len() && #[trigger] weights@[i] <= 0)
            ==> (r matches Err(e) && e@ == "allocation weights must be positive integers"@),
        weights@.len() == 0 ==> (r matches Err(e) && e@ == MoneyError::InvalidRatio.message_spec()),
        r matches Ok(vs) ==> vs@.len() == weights@.len() && (forall|i: int|
            0 <= i < vs@.len() ==> (#[trigger] vs@[i]).currency_of() == value.currency_of())
            && money_minor_sum(vs@, value.currency_of().exponent as nat) == floored_minor_units(
            value.amount_of(),
            value.currency_of().exponent as nat,
        ),
        r matches Ok(vs) ==> forall|i: int|
            0 <= i < vs@.len() ==> holds_minor(
                (#[trigger] vs@[i]).amount_of(),
                allocation_share_minor(
                    floored_minor_units(value.amount_of(), value.currency_of().exponent as nat),
                    weights@.map_values(|w: i32| w as u32),
                    i,
                ),
                value.currency_of().exponent as nat,
            ),
        (weights@.len() <= 10000 && weights@.len() > 0 && forall|i: int|
            0 <= i < weights@.len() ==> #[trigger] weights@[i] > 0) ==> (r matches Err(msg)
            ==> msg@ == MoneyError::Overflow.message_spec()),
        (weights@.len() <= 10000 && weights@.len() > 0 && (forall|i: int|
            0 <= i < weights@.len() ==> #[trigger] weights@[i] > 0) && !allocation_fits(
            value.amount_of(),
            value.currency_of().exponent as nat,
            weights@.map_values(|w: i32| w as u32),
        )) ==> (r matches Err(msg) && msg@ == MoneyError::Overflow.message_spec()),
{
    if weights.len() > 10000 {
        return Err("allocation accepts at most 10000 weights".to_string());
    }
    let mut positive: Vec<u32> = Vec::new();
    let mut i: usize = 0;
    while i < weights.len()
        invariant
            weights@.len() <= 10000,
            i <= weights@.len(),
            positive@.len() == i,
            forall|j: int| 0 <= j < i ==> #[trigger] weights@[j] > 0,
            forall|j: int| 0 <= j < i ==> #[trigger] positive@[j] == weights@[j] as u32 && positive@[j] >= 1,
        decreases weights@.len() - i,
    {
        if weights[i] <= 0 {
            return Err("allocation weights must be positive integers".to_string());
        }
        positive.push(weights[i] as u32);
        i = i + 1;
    }
    if positive.len() == 0 {
        return Err(MoneyError::InvalidRatio.message());
    }
    assert(positive@ =~= weights@.map_values(|w: i32| w as u32));
    let currency = value.currency_ref();
    let exponent = currency.exponent;
    let shares = match allocate_shares(value.decimal(), exponent, positive) {
        Ok(s) => s,
        Err(e) => {
            return Err(e.message());
        },
    };
    let ghost w = positive@;
    let ghost total = floored_minor_units(value.amount_of(), exponent as nat);
    let mut out: Vec<money_with_currency> = Vec::new();
    let mut k: usize = 0;
    while k < shares.len()
        invariant
            k <= shares@.len(),
            out@.len() == k,
            currency == value.currency_of(),
            exponent == currency.exponent,
            forall|j: int|
                0 <= j < shares@.len() ==> holds_minor(
                    #[trigger] shares@[j],
                    allocation_share_minor(total, w, j),
                    exponent as nat,
                ),
            forall|j: int|
                0 <= j < k ==> holds_minor(
                    (#[trigger] out@[j]).amount_of(),
                    allocation_share_minor(total, w, j),
                    exponent as nat,
                ),
            forall|j: int|
                0 <= j < shares@.len() ==> (#[trigger] shares@[j]).wf() && shares@[j].scale
                    <= exponent,
            forall|j: int|
                0 <= j < k ==> (#[trigger] out@[j]).currency_of() == currency && out@[j].amount_of()
                    == shares@[j].normalized(),
            money_minor_sum(out@, exponent as nat) == minor_sum(shares@.take(k as int), exponent as nat),
        decreases shares@.len() - k,
    {
        let share = shares[k];
        let v = value.with_decimal(share);
        proof {
            lemma_holds_minor_normalized(
                share,
                share.mantissa * pow10((exponent - share.scale) as nat),
                exponent as nat,
            );
            lemma_holds_minor_normalized(share, allocation_share_minor(total, w, k as int), exponent as nat);
        }
        let ghost before = out@;
        out.push(v);
        proof {
            assert(out@.drop_last() =~= before);
            assert(shares@.take(k + 1).drop_last() =~= shares@.take(k as int));
        }
        k = k + 1;
    }
    assert(shares@.take(shares@.len() as int) =~= shares@);
    Ok(out)
}

} // verus!
