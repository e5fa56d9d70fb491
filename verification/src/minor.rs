//! `money_minor`: a whole number of minor units (cents, satoshis, ...) paired
//! with a catalog currency, with the checked arithmetic of rusty-money's
//! `FastMoney` and strict or truncating conversion from `money_with_currency`.
use crate::binary::{
    bytes_result, cbor_decode_minor, cbor_encode_minor, cbor_minor_decoding, cbor_minor_encoding,
    cbor_minor_trailing,
    decoded_minor_tuple,
};
use crate::catalog::{catalog_currency, Catalog, Currency};
use crate::decimal::{pow10, spec_round_dp, Decimal, Rounding};
use crate::errors::MoneyError;
use crate::model::{
    canonical_text, currency_found, currency_missing, find_currency, find_currency_chars, has_lower,
    money_with_currency, parse_value, parse_value_error, parsed_value, unknown_currency_message,
    valid_value, STORAGE_VERSION,
};
use crate::text::{chars_of, compare_chars, lemma_lex_total, lex_lt, push_all};
use std::cmp::Ordering;
use vstd::prelude::*;

verus! {

broadcast use vstd::string::group_string_axioms;

/// An i64 minor-unit amount paired with an ISO or crypto currency.
#[allow(non_camel_case_types)]
#[derive(Clone, Copy, Debug)]
pub struct money_minor {
    currency: &'static Currency,
    minor_units: i64,
}

/// `x` as an `i64`, or an overflow.
pub open spec fn fit_i64(x: int) -> Result<i64, MoneyError> {
    if i64::MIN <= x <= i64::MAX {
        Ok(x as i64)
    } else {
        Err(MoneyError::Overflow)
    }
}

/// The exact number of minor units of `d` for a currency with `exponent`
/// fractional digits, as `Money::try_to_minor_units` computes it: a
/// precision loss when `d` holds a fraction of a minor unit, an overflow when
/// the count does not fit an `i64`.
pub open spec fn minor_units_spec(d: Decimal, exponent: nat) -> Result<i64, MoneyError> {
    if d.mantissa == 0 {
        Ok(0)
    } else if d.scale > exponent {
        let k = (d.scale - exponent) as nat;
        if (d.mantissa as int) % (pow10(k) as int) != 0 {
            Err(MoneyError::PrecisionLoss)
        } else {
            fit_i64((d.mantissa as int) / (pow10(k) as int))
        }
    } else {
        fit_i64(d.mantissa * pow10((exponent - d.scale) as nat))
    }
}

/// `FastMoney::from_money` (through `Money::try_to_minor_units`) on an amount
/// of a currency with `exponent` fractional digits. Trusted: the result is
/// `minor_units_spec`, read off the source; the conversion reads the amount
/// and the exponent only.
#[verifier::external_body]
fn fast_minor_units(amount: Decimal, exponent: u32) -> (r: Result<i64, MoneyError>)
    requires
        amount.wf(),
        exponent <= 28,
    ensures
        r == minor_units_spec(amount, exponent as nat),
{
    let currency = rusty_money::iso::Currency { exponent, ..*rusty_money::iso::USD };
    let d = rust_decimal::Decimal::from_i128_with_scale(amount.mantissa, amount.scale);
    match rusty_money::FastMoney::from_money(rusty_money::Money::from_decimal(d, &currency)) {
        Ok(fast) => Ok(fast.minor_units()),
        Err(rusty_money::MoneyError::PrecisionLoss) => Err(MoneyError::PrecisionLoss),
        Err(_) => Err(MoneyError::Overflow),
    }
}

/// `FastMoney::from_money_lossy` on an amount of a currency with `exponent`
/// fractional digits. Trusted: the amount is first rounded toward zero to
/// `exponent` digits, then converted as `minor_units_spec` says.
#[verifier::external_body]
fn fast_minor_units_lossy(amount: Decimal, exponent: u32) -> (r: Result<i64, MoneyError>)
    requires
        amount.wf(),
        exponent <= 28,
    ensures
        r == minor_units_spec(spec_round_dp(amount, exponent as nat, Rounding::ToZero), exponent as nat),
{
    let currency = rusty_money::iso::Currency { exponent, ..*rusty_money::iso::USD };
    let d = rust_decimal::Decimal::from_i128_with_scale(amount.mantissa, amount.scale);
    match rusty_money::FastMoney::from_money_lossy(rusty_money::Money::from_decimal(d, &currency)) {
        Ok(fast) => Ok(fast.minor_units()),
        Err(rusty_money::MoneyError::PrecisionLoss) => Err(MoneyError::PrecisionLoss),
        Err(_) => Err(MoneyError::Overflow),
    }
}

/// The value in `c` with these minor units, or the conversion's error.
pub open spec fn minor_result(c: Currency, units: Result<i64, MoneyError>) -> Result<
    money_minor,
    MoneyError,
> {
    match units {
        Ok(u) => Ok(minor_with(c, u)),
        Err(e) => Err(e),
    }
}

/// The value with this currency and minor units.
pub closed spec fn minor_with(c: Currency, units: i64) -> money_minor {
    money_minor { currency: &c, minor_units: units }
}

/// Both values have the same currency code.
pub open spec fn same_minor_currency(a: money_minor, b: money_minor) -> bool {
    a.currency_of().code@ == b.currency_of().code@
}

/// The mismatch error for two values of different currencies.
pub open spec fn minor_mismatch(a: money_minor, b: money_minor) -> MoneyError {
    MoneyError::CurrencyMismatch { expected: a.currency_of().code, actual: b.currency_of().code }
}

/// A checked operation on the minor units: the result kept in `a`'s
/// currency, or an overflow when it leaves the `i64` range.
pub open spec fn units_result(a: money_minor, x: int) -> Result<money_minor, MoneyError> {
    if i64::MIN <= x <= i64::MAX {
        Ok(minor_with(a.currency_of(), x as i64))
    } else {
        Err(MoneyError::Overflow)
    }
}

/// The quotient of Rust's `/` on integers: rounded toward zero.
pub open spec fn div_toward_zero(a: int, b: int) -> int {
    let q = crate::decimal::abs_int(a) / crate::decimal::abs_int(b);
    if (a < 0) != (b < 0) {
        -q
    } else {
        q as int
    }
}

/// Division of minor units truncates toward zero, as Rust's `/` on integers
/// does: the quotient `q` of `a` by `b` leaves a remainder `a - q * b` smaller
/// than the divisor in magnitude and of the dividend's sign, or zero. (Only
/// one quotient does so, so this fixes the result of `money_minor_divide`.)
pub proof fn law_division_truncates_toward_zero(a: int, b: int)
    requires
        b != 0,
    ensures
        crate::decimal::abs_int(a - div_toward_zero(a, b) * b) < crate::decimal::abs_int(b),
        a - div_toward_zero(a, b) * b == 0 || (a - div_toward_zero(a, b) * b < 0) == (a < 0),
{
    let aa: int = crate::decimal::abs_int(a) as int;
    let bb: int = crate::decimal::abs_int(b) as int;
    let q = aa / bb;
    let r0 = aa % bb;
    vstd::arithmetic::div_mod::lemma_fundamental_div_mod(aa, bb);
    vstd::arithmetic::div_mod::lemma_mod_pos_bound(aa, bb);
    assert(aa == bb * q + r0);
    let d = div_toward_zero(a, b);
    if a >= 0 && b > 0 {
        assert(d == q);
        assert(a - d * b == r0);
    } else if a >= 0 {
        assert(d == -q);
        assert(d * b == q * bb) by (nonlinear_arith)
            requires
                d == -q,
                b == -bb,
        ;
        assert(a - d * b == r0);
    } else if b > 0 {
        assert(d == -q);
        assert(d * b == -(q * bb)) by (nonlinear_arith)
            requires
                d == -q,
                b == bb,
        ;
        assert(a - d * b == -r0);
    } else {
        assert(d == q);
        assert(d * b == -(q * bb)) by (nonlinear_arith)
            requires
                d == q,
                b == -bb,
        ;
        assert(a - d * b == -r0);
    }
}

impl money_minor {
    pub closed spec fn currency_of(self) -> Currency {
        *self.currency
    }

    pub closed spec fn units_of(self) -> i64 {
        self.minor_units
    }

    #[verifier::type_invariant]
    closed spec fn wf(self) -> bool {
        catalog_currency(*self.currency)
    }

    /// A value from minor units and a currency of the catalog.
    pub fn from_known_units(minor_units: i64, currency: &'static Currency) -> (r: Self)
        requires
            catalog_currency(*currency),
        ensures
            r.units_of() == minor_units,
            r.currency_of() == *currency,
    {
        money_minor { currency, minor_units }
    }

    /// A value from minor units and a currency code looked up in the catalog.
    pub fn from_units(catalog: &'static Catalog, minor_units: i64, currency: &str) -> (r: Result<
        Self,
        String,
    >)
        ensures
            r matches Ok(v) ==> v.units_of() == minor_units && currency_found(
                currency@,
                v.currency_of(),
            ),
            r matches Err(e) ==> currency_missing(currency@) && e@ == unknown_currency_message(
                currency@,
            ),
    {
        let c = find_currency(catalog, currency)?;
        Ok(Self::from_known_units(minor_units, c))
    }

    /// Strict conversion: the amount must be a whole number of minor units
    /// that fits an `i64`.
    pub fn from_money(value: money_with_currency) -> (r: Result<Self, MoneyError>)
        ensures
            r == minor_result(
                value.currency_of(),
                minor_units_spec(value.amount_of(), value.currency_of().exponent as nat),
            ),
    {
        let c = value.currency_ref();
        let units = fast_minor_units(value.decimal(), c.exponent)?;
        Ok(Self::from_known_units(units, c))
    }

    /// Truncating conversion: fractions of a minor unit are dropped toward
    /// zero; the count must still fit an `i64`.
    pub fn from_money_lossy(value: money_with_currency) -> (r: Result<Self, MoneyError>)
        ensures
            r == minor_result(
                value.currency_of(),
                minor_units_spec(
                    spec_round_dp(
                        value.amount_of(),
                        value.currency_of().exponent as nat,
                        Rounding::ToZero,
                    ),
                    value.currency_of().exponent as nat,
                ),
            ),
    {
        let c = value.currency_ref();
        let units = fast_minor_units_lossy(value.decimal(), c.exponent)?;
        Ok(Self::from_known_units(units, c))
    }

    /// The decimal amount: the minor units shifted by the currency's exponent
    /// (`Money::from_minor`).
    pub fn as_decimal(&self) -> (r: Decimal)
        ensures
            r == (Decimal {
                mantissa: self.units_of() as i128,
                scale: self.currency_of().exponent,
            }),
            r.wf(),
    {
        proof {
            use_type_invariant(self);
        }
        Decimal::new(self.minor_units, self.currency.exponent)
    }

    /// The same value as a `money_with_currency`.
    pub fn as_money(&self) -> (r: money_with_currency)
        ensures
            r == self.as_money_spec(),
            r.amount_of() == (Decimal {
                mantissa: self.units_of() as i128,
                scale: self.currency_of().exponent,
            }).normalized(),
            r.currency_of() == self.currency_of(),
    {
        proof {
            use_type_invariant(self);
        }
        let r = money_with_currency::from_known_currency(self.as_decimal(), self.currency);
        proof {
            crate::model::lemma_money_with(*self.currency, r.amount_of());
            crate::model::lemma_money_eq(r, self.as_money_spec());
        }
        r
    }

    pub fn currency_ref(&self) -> (r: &'static Currency)
        ensures
            *r == self.currency_of(),
            catalog_currency(*r),
    {
        proof {
            use_type_invariant(self);
        }
        self.currency
    }

    pub fn currency_code(&self) -> (r: &'static str)
        ensures
            r == self.currency_of().code,
    {
        self.currency.code
    }

    pub fn minor_units(&self) -> (r: i64)
        ensures
            r == self.units_of(),
    {
        self.minor_units
    }

    /// The canonical text of the decimal value, `<CODE> <amount>`.
    pub fn canonical(&self) -> (r: String)
        ensures
            r@ == canonical_text(self.as_money_spec()),
    {
        self.as_money().canonical()
    }

    /// The value `as_money` gives.
    pub closed spec fn as_money_spec(self) -> money_with_currency {
        crate::model::money_with(
            *self.currency,
            (Decimal { mantissa: self.minor_units as i128, scale: self.currency.exponent }).normalized(),
        )
    }
}

/// Converting minor units to a decimal value and strictly back gives the
/// same minor units in the same currency.
pub proof fn law_minor_round_trip(m: money_minor)
    requires
        catalog_currency(m.currency_of()),
    ensures
        money_minor::from_money_spec(m.as_money_spec()) == Ok::<money_minor, MoneyError>(m),
{
    let c = m.currency_of();
    let e = c.exponent as nat;
    let d = Decimal { mantissa: m.units_of() as i128, scale: c.exponent };
    let n = d.normalized();
    crate::model::lemma_money_with(c, n);
    assert((e - d.scale) as nat == 0);
    assert(pow10(0) == 1);
    assert(d.mantissa * pow10(0) == d.mantissa) by (nonlinear_arith)
        requires
            pow10(0) == 1,
    ;
    crate::arithmetic::lemma_holds_minor_normalized(d, m.units_of() as int, e);
    crate::decimal::lemma_normalize(d.mantissa as int, d.scale as nat);
    assert(minor_units_spec(n, e) == Ok::<i64, MoneyError>(m.units_of()));
}

/// The minor units of a decimal at an exponent, when the strict conversion
/// finds them, are its exact value: written at that exponent they have the
/// decimal's value.
proof fn lemma_minor_units_exact(d: Decimal, e: nat, u: i64)
    requires
        d.wf(),
        e <= 28,
        minor_units_spec(d, e) == Ok::<i64, MoneyError>(u),
    ensures
        (Decimal { mantissa: u as i128, scale: e as u32 }).same_value(d),
{
    let x = Decimal { mantissa: u as i128, scale: e as u32 };
    let m = d.mantissa as int;
    let s = d.scale as nat;
    if m == 0 {
        assert(u == 0);
    } else if s > e {
        let k = (s - e) as nat;
        crate::decimal::lemma_pow10_pos(k);
        let pk = pow10(k) as int;
        vstd::arithmetic::div_mod::lemma_fundamental_div_mod(m, pk);
        assert(m % pk == 0);
        assert(u == m / pk);
        assert(u * pk == m) by (nonlinear_arith)
            requires
                m == pk * (m / pk) + m % pk,
                m % pk == 0,
                u == m / pk,
        ;
        crate::decimal::lemma_pow10_add(e, k);
        assert((e + k) as nat == s);
        assert(u * pow10(s) == m * pow10(e)) by (nonlinear_arith)
            requires
                u * pk == m,
                pow10(s) == pow10(e) * pk,
        ;
    } else {
        let k = (e - s) as nat;
        crate::decimal::lemma_pow10_add(s, k);
        assert((s + k) as nat == e);
        assert(u == m * pow10(k));
        assert(u * pow10(s) == m * pow10(e)) by (nonlinear_arith)
            requires
                u == m * pow10(k),
                pow10(e) == pow10(s) * pow10(k),
        ;
    }
}

/// The strict conversion is exact: when a value converts to minor units, the
/// minor units stand for that very value again.
pub proof fn law_strict_minor_is_exact(v: money_with_currency)
    requires
        crate::model::valid_value(v),
    ensures
        money_minor::from_money_spec(v) matches Ok(m) ==> m.as_money_spec() == v,
{
    let c = v.currency_of();
    let e = c.exponent as nat;
    if let Ok(u) = minor_units_spec(v.amount_of(), e) {
        let m = minor_with(c, u);
        lemma_minor_units_exact(v.amount_of(), e, u);
        let x = Decimal { mantissa: u as i128, scale: c.exponent };
        crate::decimal::law_normalize_depends_on_value(x, v.amount_of());
        crate::decimal::lemma_normalize(v.amount_of().mantissa as int, v.amount_of().scale as nat);
        crate::decimal::lemma_normalized_unique(v.amount_of().normalized(), v.amount_of());
        crate::model::lemma_money_with_parts(v);
        assert(m.as_money_spec() == crate::model::money_with(c, x.normalized()));
    }
}

/// Parses `<currency> <amount>` and converts it strictly to minor units.
pub fn parse_minor(catalog: &'static Catalog, input: &str) -> (r: Result<money_minor, String>)
    ensures
        parse_value_error(input@) is Some ==> (r matches Err(e) && Some(e@) == parse_value_error(
            input@,
        )),
        forall|v: money_with_currency|
            #[trigger] parsed_value(input@, v) && parse_value_error(input@) is None ==> match money_minor::from_money_spec(v) {
                Ok(m) => r matches Ok(x) && x == m,
                Err(e) => r matches Err(msg) && msg@ == e.message_spec(),
            },
{
    let value = parse_value(catalog, input)?;
    proof {
        assert forall|v: money_with_currency| #[trigger] parsed_value(input@, v) implies v == value by {
            crate::model::lemma_parsed_value_unique(input@, v, value);
        }
    }
    match money_minor::from_money(value) {
        Ok(m) => Ok(m),
        Err(e) => Err(e.message()),
    }
}

impl money_minor {
    /// What `from_money` gives.
    pub open spec fn from_money_spec(value: money_with_currency) -> Result<money_minor, MoneyError> {
        minor_result(
            value.currency_of(),
            minor_units_spec(value.amount_of(), value.currency_of().exponent as nat),
        )
    }
}

/// A `money_with_currency` from minor units of a currency code.
pub fn money_from_minor(catalog: &'static Catalog, minor_units: i64, currency: &str) -> (r: Result<
    money_with_currency,
    String,
>)
    ensures
        r matches Ok(v) ==> currency_found(currency@, v.currency_of()) && v.amount_of() == (Decimal {
            mantissa: minor_units as i128,
            scale: v.currency_of().exponent,
        }).normalized(),
        r matches Err(e) ==> currency_missing(currency@) && e@ == unknown_currency_message(
            currency@,
        ),
{
    let m = money_minor::from_units(catalog, minor_units, currency)?;
    Ok(m.as_money())
}

/// The exact minor units of a value.
pub fn money_to_minor(value: money_with_currency) -> (r: Result<i64, MoneyError>)
    ensures
        r == minor_units_spec(value.amount_of(), value.currency_of().exponent as nat),
{
    let m = money_minor::from_money(value)?;
    Ok(m.minor_units())
}

/// The minor units of a value, fractions of a minor unit dropped toward zero.
pub fn money_to_minor_lossy(value: money_with_currency) -> (r: Result<i64, MoneyError>)
    ensures
        r == minor_units_spec(
            spec_round_dp(value.amount_of(), value.currency_of().exponent as nat, Rounding::ToZero),
            value.currency_of().exponent as nat,
        ),
{
    let m = money_minor::from_money_lossy(value)?;
    Ok(m.minor_units())
}

/// `money_minor` from minor units and a currency code.
pub fn money_minor_make(catalog: &'static Catalog, minor_units: i64, currency: &str) -> (r: Result<
    money_minor,
    String,
>)
    ensures
        r matches Ok(v) ==> v.units_of() == minor_units && currency_found(currency@, v.currency_of()),
        r matches Err(e) ==> currency_missing(currency@) && e@ == unknown_currency_message(
            currency@,
        ),
{
    money_minor::from_units(catalog, minor_units, currency)
}

/// `money_minor` from whole major units (`FastMoney::from_major`): zero is
/// zero at any exponent; otherwise `amount * 10^exponent` must fit an `i64`.
pub fn money_minor_from_major(catalog: &'static Catalog, amount: i64, currency: &str) -> (r: Result<
    money_minor,
    String,
>)
    ensures
        currency_missing(currency@) ==> (r matches Err(e) && e@ == unknown_currency_message(
            currency@,
        )),
        !currency_missing(currency@) ==> exists|c: Currency|
            #![trigger currency_found(currency@, c)]
            currency_found(currency@, c) && match units_of_major(amount as int, c.exponent as nat) {
                Some(u) => r matches Ok(v) && v.units_of() == u && v.currency_of() == c,
                None => r matches Err(e) && e@ == MoneyError::Overflow.message_spec(),
            },
{
    let c = match find_currency(catalog, currency) {
        Ok(c) => c,
        Err(e) => {
            return Err(e);
        },
    };
    proof {
        assert(currency_found(currency@, *c));
    }
    if amount == 0 {
        return Ok(money_minor::from_known_units(0, c));
    }
    let mut multiplier: i64 = 1;
    let mut i: u32 = 0;
    while i < c.exponent
        invariant
            i <= c.exponent,
            multiplier == pow10(i as nat),
            1 <= multiplier,
            amount != 0,
            currency_found(currency@, *c),
        decreases c.exponent - i,
    {
        if multiplier > i64::MAX / 10 {
            proof {
                lemma_pow10_grows((i + 1) as nat, c.exponent as nat);
                assert(pow10((i + 1) as nat) == 10 * pow10(i as nat));
            }
            return Err(MoneyError::Overflow.message());
        }
        multiplier = multiplier * 10;
        i = i + 1;
    }
    assert(amount as i128 * multiplier as i128 <= 0x4000_0000_0000_0000_0000_0000_0000_0000) by (
    nonlinear_arith)
        requires
            -0x8000_0000_0000_0000 <= amount <= 0x7fff_ffff_ffff_ffff,
            1 <= multiplier <= 0x7fff_ffff_ffff_ffff,
    ;
    assert(amount as i128 * multiplier as i128 >= -0x4000_0000_0000_0000_0000_0000_0000_0000) by (
    nonlinear_arith)
        requires
            -0x8000_0000_0000_0000 <= amount <= 0x7fff_ffff_ffff_ffff,
            1 <= multiplier <= 0x7fff_ffff_ffff_ffff,
    ;
    let product: i128 = amount as i128 * multiplier as i128;
    if product < i64::MIN as i128 || product > i64::MAX as i128 {
        return Err(MoneyError::Overflow.message());
    }
    Ok(money_minor::from_known_units(product as i64, c))
}

/// Minor units of a whole major amount, when `FastMoney::from_major` gives them.
pub open spec fn units_of_major(amount: int, exponent: nat) -> Option<i64> {
    if amount == 0 {
        Some(0)
    } else if pow10(exponent) > i64::MAX || !(i64::MIN <= amount * pow10(exponent) <= i64::MAX) {
        None
    } else {
        Some((amount * pow10(exponent)) as i64)
    }
}

proof fn lemma_pow10_grows(i: nat, n: nat)
    requires
        i <= n,
    ensures
        pow10(i) <= pow10(n),
    decreases n,
{
    if i < n {
        lemma_pow10_grows(i, (n - 1) as nat);
    }
}

pub fn money_minor_units(value: money_minor) -> (r: i64)
    ensures
        r == value.units_of(),
{
    value.minor_units()
}

pub fn money_minor_currency(value: money_minor) -> (r: &'static str)
    ensures
        r == value.currency_of().code,
{
    value.currency_code()
}

pub fn money_minor_is_zero(value: money_minor) -> (r: bool)
    ensures
        r == (value.units_of() == 0),
{
    value.minor_units() == 0
}

pub fn money_minor_is_positive(value: money_minor) -> (r: bool)
    ensures
        r == (value.units_of() > 0),
{
    value.minor_units() > 0
}

pub fn money_minor_is_negative(value: money_minor) -> (r: bool)
    ensures
        r == (value.units_of() < 0),
{
    value.minor_units() < 0
}

fn same_code(a: &money_minor, b: &money_minor) -> (r: bool)
    ensures
        r == same_minor_currency(*a, *b),
{
    compare_chars(&chars_of(a.currency_code()), &chars_of(b.currency_code())) == 0
}

/// Sum of two values of one currency (`FastMoney::add`).
pub fn money_minor_add(left: money_minor, right: money_minor) -> (r: Result<money_minor, MoneyError>)
    ensures
        !same_minor_currency(left, right) ==> r == Err::<money_minor, MoneyError>(
            minor_mismatch(left, right),
        ),
        same_minor_currency(left, right) ==> r == units_result(
            left,
            left.units_of() + right.units_of(),
        ),
{
    if !same_code(&left, &right) {
        return Err(
            MoneyError::CurrencyMismatch {
                expected: left.currency_code(),
                actual: right.currency_code(),
            },
        );
    }
    let sum: i128 = left.minor_units() as i128 + right.minor_units() as i128;
    if sum < i64::MIN as i128 || sum > i64::MAX as i128 {
        return Err(MoneyError::Overflow);
    }
    Ok(money_minor::from_known_units(sum as i64, left.currency_ref()))
}

/// Difference of two values of one currency (`FastMoney::sub`).
pub fn money_minor_subtract(left: money_minor, right: money_minor) -> (r: Result<
    money_minor,
    MoneyError,
>)
    ensures
        !same_minor_currency(left, right) ==> r == Err::<money_minor, MoneyError>(
            minor_mismatch(left, right),
        ),
        same_minor_currency(left, right) ==> r == units_result(
            left,
            left.units_of() - right.units_of(),
        ),
{
    if !same_code(&left, &right) {
        return Err(
            MoneyError::CurrencyMismatch {
                expected: left.currency_code(),
                actual: right.currency_code(),
            },
        );
    }
    let diff: i128 = left.minor_units() as i128 - right.minor_units() as i128;
    if diff < i64::MIN as i128 || diff > i64::MAX as i128 {
        return Err(MoneyError::Overflow);
    }
    Ok(money_minor::from_known_units(diff as i64, left.currency_ref()))
}

/// The minor units times an integer (`FastMoney::mul`).
pub fn money_minor_multiply(value: money_minor, multiplier: i64) -> (r: Result<
    money_minor,
    MoneyError,
>)
    ensures
        r == units_result(value, value.units_of() * multiplier),
{
    let units = value.minor_units();
    assert(-0x4000_0000_0000_0000_0000_0000_0000_0000 <= units as i128 * multiplier as i128
        <= 0x4000_0000_0000_0000_0000_0000_0000_0000) by (nonlinear_arith)
        requires
            -0x8000_0000_0000_0000 <= units <= 0x7fff_ffff_ffff_ffff,
            -0x8000_0000_0000_0000 <= multiplier <= 0x7fff_ffff_ffff_ffff,
    ;
    let product: i128 = units as i128 * multiplier as i128;
    if product < i64::MIN as i128 || product > i64::MAX as i128 {
        return Err(MoneyError::Overflow);
    }
    Ok(money_minor::from_known_units(product as i64, value.currency_ref()))
}

/// The minor units divided by an integer, rounded toward zero
/// (`FastMoney::div`); a zero divisor is refused.
pub fn money_minor_divide(value: money_minor, divisor: i64) -> (r: Result<money_minor, MoneyError>)
    ensures
        divisor == 0 ==> r == Err::<money_minor, MoneyError>(MoneyError::DivisionByZero),
        divisor != 0 ==> r == units_result(value, div_toward_zero(value.units_of() as int, divisor as int)),
{
    if divisor == 0 {
        return Err(MoneyError::DivisionByZero);
    }
    let units = value.minor_units();
    if units == i64::MIN && divisor == -1 {
        assert(crate::decimal::abs_int(units as int) == 0x8000_0000_0000_0000);
        assert(crate::decimal::abs_int(divisor as int) == 1);
        assert(0x8000_0000_0000_0000nat / 1nat == 0x8000_0000_0000_0000nat);
        return Err(MoneyError::Overflow);
    }
    let a: i128 = if units < 0 { -(units as i128) } else { units as i128 };
    let b: i128 = if divisor < 0 { -(divisor as i128) } else { divisor as i128 };
    let q: i128 = a / b;
    proof {
        assert(q * b <= a && q >= 0) by (nonlinear_arith)
            requires
                q == a / b,
                b >= 1,
                a >= 0,
        ;
        if b >= 2 {
            assert(2 * q <= a) by (nonlinear_arith)
                requires
                    q * b <= a,
                    b >= 2,
                    q >= 0,
            ;
        } else {
            assert(q * 1 == q);
        }
    }
    let quotient: i128 = if (units < 0) != (divisor < 0) { -q } else { q };
    proof {
        assert(quotient == div_toward_zero(units as int, divisor as int));
    }
    Ok(money_minor::from_known_units(quotient as i64, value.currency_ref()))
}

/// The absolute value (`FastMoney::abs`); the most negative count overflows.
pub fn money_minor_abs(value: money_minor) -> (r: Result<money_minor, MoneyError>)
    ensures
        r == units_result(value, crate::decimal::abs_int(value.units_of() as int) as int),
{
    let units = value.minor_units();
    if units == i64::MIN {
        return Err(MoneyError::Overflow);
    }
    let a: i64 = if units < 0 { -units } else { units };
    Ok(money_minor::from_known_units(a, value.currency_ref()))
}

/// The negation (`FastMoney::neg`); the most negative count overflows.
pub fn money_minor_negate(value: money_minor) -> (r: Result<money_minor, MoneyError>)
    ensures
        r == units_result(value, -(value.units_of() as int)),
{
    let units = value.minor_units();
    if units == i64::MIN {
        return Err(MoneyError::Overflow);
    }
    Ok(money_minor::from_known_units(-units, value.currency_ref()))
}

/// What the strict minor-unit comparison gives: the mismatch, or -1, 0 or 1.
pub open spec fn minor_compare_result(a: money_minor, b: money_minor) -> Result<i32, MoneyError> {
    if !same_minor_currency(a, b) {
        Err(minor_mismatch(a, b))
    } else if a.units_of() < b.units_of() {
        Ok(-1i32)
    } else if a.units_of() > b.units_of() {
        Ok(1i32)
    } else {
        Ok(0i32)
    }
}

/// Compares minor units as `FastMoney::compare` does: -1, 0 or 1, and a
/// currency mismatch for values of different currencies.
pub fn money_minor_compare(left: money_minor, right: money_minor) -> (r: Result<i32, MoneyError>)
    ensures
        r == minor_compare_result(left, right),
{
    if !same_code(&left, &right) {
        return Err(
            MoneyError::CurrencyMismatch {
                expected: left.currency_code(),
                actual: right.currency_code(),
            },
        );
    }
    if left.minor_units() < right.minor_units() {
        Ok(-1)
    } else if left.minor_units() > right.minor_units() {
        Ok(1)
    } else {
        Ok(0)
    }
}

/// The cast to `money_with_currency`.
pub fn money_minor_to_money_with_currency(value: money_minor) -> (r: money_with_currency)
    ensures
        r == value.as_money_spec(),
{
    let r = value.as_money();
    proof {
        crate::model::lemma_money_eq(r, value.as_money_spec());
    }
    r
}

/// The cast from `money_with_currency`: strict conversion.
pub fn money_with_currency_to_money_minor(value: money_with_currency) -> (r: Result<
    money_minor,
    MoneyError,
>)
    ensures
        r == money_minor::from_money_spec(value),
{
    money_minor::from_money(value)
}

/// The error decoding minor-unit storage parts gives, if any.
pub open spec fn minor_storage_error(version: u8, code: Seq<char>) -> Option<Seq<char>> {
    if version != STORAGE_VERSION {
        Some(
            "unsupported money storage version "@ + crate::decimal::decimal_text(
                Decimal { mantissa: version as i128, scale: 0 },
            ),
        )
    } else if has_lower(code) {
        Some("money currency is not canonically encoded"@)
    } else if currency_missing(code) {
        Some(unknown_currency_message(code))
    } else if crate::model::currency_key(code) != code {
        Some("money currency is not canonically encoded"@)
    } else {
        None
    }
}

/// The error decoding CBOR minor-unit storage bytes gives, if any: the
/// decoder's own, then the refusal of the tuple, then bytes left after it.
pub open spec fn minor_cbor_error(data: Seq<u8>) -> Option<Seq<char>> {
    match cbor_minor_decoding(data) {
        Err(e) => Some(e),
        Ok((version, code, units)) => match minor_storage_error(version, code) {
            Some(e) => Some(e),
            None => cbor_minor_trailing(data),
        },
    }
}

/// `v` is the value CBOR minor-unit storage bytes describe.
pub open spec fn decoded_minor(data: Seq<u8>, v: money_minor) -> bool {
    match cbor_minor_decoding(data) {
        Err(e) => false,
        Ok((version, code, units)) => v.units_of() == units && currency_found(code, v.currency_of()),
    }
}

impl money_minor {
    /// The CBOR storage form `[version, currency, minor_units]`; what it
    /// writes decodes, with `from_cbor`, to exactly this value.
    pub fn to_cbor(&self) -> (r: Result<Vec<u8>, String>)
        ensures
            bytes_result(r) == cbor_minor_encoding(
                STORAGE_VERSION,
                self.currency_of().code@,
                self.units_of(),
            ),
            r matches Ok(b) ==> minor_cbor_error(b@) is None && forall|v: money_minor|
                #[trigger] decoded_minor(b@, v) ==> v == *self,
    {
        proof {
            use_type_invariant(self);
            crate::model::lemma_code_is_key(*self.currency);
        }
        let r = cbor_encode_minor(STORAGE_VERSION, self.currency.code, self.minor_units);
        proof {
            if r is Ok {
                let b = r->Ok_0;
                assert(minor_cbor_error(b@) is None);
                assert forall|v: money_minor| #[trigger] decoded_minor(b@, v) implies v == *self by {
                    assert(v.currency_of() == *self.currency);
                }
            }
        }
        r
    }

    /// Rebuilds a value from the storage tuple, refusing an unknown version, a
    /// currency code with lower-case letters, an unknown currency, and a code
    /// that is not exactly the catalog's code (see `minor_storage_error`).
    pub fn from_storage(catalog: &'static Catalog, version: u8, currency: &str, minor_units: i64) -> (r:
        Result<Self, String>)
        ensures
            r matches Err(e) ==> minor_storage_error(version, currency@) == Some(e@),
            r matches Ok(v) ==> minor_storage_error(version, currency@) is None && v.units_of()
                == minor_units && currency_found(currency@, v.currency_of())
                && v.currency_of().code@ == currency@,
            minor_storage_error(version, currency@) is None ==> r is Ok,
    {
        if version != STORAGE_VERSION {
            let mut msg = "unsupported money storage version ".to_string();
            let number = Decimal::new(version as i64, 0).to_text();
            push_all(&mut msg, &chars_of(number.as_str()));
            return Err(msg);
        }
        let chars = chars_of(currency);
        if crate::model::contains_lower(&chars) {
            return Err("money currency is not canonically encoded".to_string());
        }
        let c = find_currency_chars(catalog, &chars)?;
        if compare_chars(&chars_of(c.code), &chars) != 0 {
            return Err("money currency is not canonically encoded".to_string());
        }
        Ok(Self::from_known_units(minor_units, c))
    }

    /// Decodes the CBOR storage form and validates it (see `from_storage`).
    pub fn from_cbor(catalog: &'static Catalog, data: &[u8]) -> (r: Result<Self, String>)
        ensures
            r matches Err(e) ==> minor_cbor_error(data@) == Some(e@),
            r matches Ok(v) ==> minor_cbor_error(data@) is None && decoded_minor(data@, v),
    {
        let ((version, code, units), trailing) = cbor_decode_minor(data)?;
        let v = Self::from_storage(catalog, version, code.as_str(), units)?;
        match trailing {
            Some(e) => Err(e),
            None => Ok(v),
        }
    }
}

/// Same currency code and same minor units.
pub open spec fn minor_equal(a: money_minor, b: money_minor) -> bool {
    a.currency_of().code@ == b.currency_of().code@ && a.units_of() == b.units_of()
}

/// The order of two values: by currency code, then by minor units.
pub open spec fn minor_order(a: money_minor, b: money_minor) -> Ordering {
    let ca = a.currency_of().code@;
    let cb = b.currency_of().code@;
    if lex_lt(ca, cb) {
        Ordering::Less
    } else if lex_lt(cb, ca) {
        Ordering::Greater
    } else if a.units_of() < b.units_of() {
        Ordering::Less
    } else if a.units_of() > b.units_of() {
        Ordering::Greater
    } else {
        Ordering::Equal
    }
}

/// Normalizing minor units at one exponent keeps their order.
proof fn lemma_normalized_units_order(u1: i64, u2: i64, e: u32)
    ensures
        crate::decimal::value_lt(
            (Decimal { mantissa: u1 as i128, scale: e }).normalized(),
            (Decimal { mantissa: u2 as i128, scale: e }).normalized(),
        ) <==> u1 < u2,
{
    crate::decimal::lemma_normalize(u1 as int, e as nat);
    crate::decimal::lemma_normalize(u2 as int, e as nat);
    let (m1, s1) = crate::decimal::spec_normalize(u1 as int, e as nat);
    let (m2, s2) = crate::decimal::spec_normalize(u2 as int, e as nat);
    let x = (Decimal { mantissa: u1 as i128, scale: e }).normalized();
    let y = (Decimal { mantissa: u2 as i128, scale: e }).normalized();
    assert(x.mantissa == m1 && x.scale == s1);
    assert(y.mantissa == m2 && y.scale == s2);
    crate::decimal::lemma_pow10_pos(s1);
    crate::decimal::lemma_pow10_pos(s2);
    crate::decimal::lemma_pow10_pos(e as nat);
    let (p1, p2, pe) = (pow10(s1), pow10(s2), pow10(e as nat));
    assert(m1 * p2 < m2 * p1 <==> u1 < u2) by (nonlinear_arith)
        requires
            u1 * p1 == m1 * pe,
            u2 * p2 == m2 * pe,
            p1 > 0,
            p2 > 0,
            pe > 0,
    {
        assert(m1 * p2 * pe == u1 * p1 * p2);
        assert(m2 * p1 * pe == u2 * p1 * p2);
        if u1 < u2 {
            assert(u1 * (p1 * p2) < u2 * (p1 * p2));
        }
        if m1 * p2 < m2 * p1 {
            assert(m1 * p2 * pe < m2 * p1 * pe);
        }
    }
}

/// The decimal values of two minor-unit values of one currency compare as
/// their minor units do.
proof fn lemma_as_money_order(a: money_minor, b: money_minor)
    requires
        a.currency_of() == b.currency_of(),
    ensures
        a.as_money_spec().currency_of() == a.currency_of(),
        crate::decimal::value_lt(a.as_money_spec().amount_of(), b.as_money_spec().amount_of())
            <==> a.units_of() < b.units_of(),
{
    let e = a.currency_of().exponent;
    let x = (Decimal { mantissa: a.units_of() as i128, scale: e }).normalized();
    let y = (Decimal { mantissa: b.units_of() as i128, scale: e }).normalized();
    crate::model::lemma_money_with(a.currency_of(), x);
    crate::model::lemma_money_with(b.currency_of(), y);
    lemma_normalized_units_order(a.units_of(), b.units_of(), e);
}

/// Within one currency the order of minor-unit values is the integer order of
/// their minor units: it agrees with `money_minor_compare`, and it is the
/// order of the decimal values they stand for (`as_money`) under the order of
/// `money_with_currency`.
pub proof fn law_minor_order_by_units(a: money_minor, b: money_minor)
    requires
        a.currency_of() == b.currency_of(),
    ensures
        minor_order(a, b) == Ordering::Less <==> a.units_of() < b.units_of(),
        minor_order(a, b) == Ordering::Equal <==> a.units_of() == b.units_of(),
        minor_order(a, b) == Ordering::Greater <==> a.units_of() > b.units_of(),
        minor_compare_result(a, b) == Ok::<i32, MoneyError>(-1i32) <==> minor_order(a, b)
            == Ordering::Less,
        minor_compare_result(a, b) == Ok::<i32, MoneyError>(0i32) <==> minor_order(a, b)
            == Ordering::Equal,
        minor_compare_result(a, b) == Ok::<i32, MoneyError>(1i32) <==> minor_order(a, b)
            == Ordering::Greater,
        minor_order(a, b) == crate::comparison::money_order(a.as_money_spec(), b.as_money_spec()),
{
    lemma_lex_total(a.currency_of().code@, b.currency_of().code@);
    lemma_as_money_order(a, b);
    lemma_as_money_order(b, a);
}

impl PartialEq for money_minor {
    fn eq(&self, other: &Self) -> (r: bool) {
        same_code(self, other) && self.minor_units() == other.minor_units()
    }
}

impl vstd::std_specs::cmp::PartialEqSpecImpl for money_minor {
    open spec fn obeys_eq_spec() -> bool {
        true
    }

    open spec fn eq_spec(&self, other: &Self) -> bool {
        minor_equal(*self, *other)
    }
}

impl Eq for money_minor {

}

impl PartialOrd for money_minor {
    fn partial_cmp(&self, other: &Self) -> (r: Option<Ordering>) {
        let by_code = compare_chars(&chars_of(self.currency_code()), &chars_of(other.currency_code()));
        proof {
            lemma_lex_total(self.currency_of().code@, other.currency_of().code@);
        }
        if by_code < 0 {
            Some(Ordering::Less)
        } else if by_code > 0 {
            Some(Ordering::Greater)
        } else if self.minor_units() < other.minor_units() {
            Some(Ordering::Less)
        } else if self.minor_units() > other.minor_units() {
            Some(Ordering::Greater)
        } else {
            Some(Ordering::Equal)
        }
    }
}

impl vstd::std_specs::cmp::PartialOrdSpecImpl for money_minor {
    open spec fn obeys_partial_cmp_spec() -> bool {
        true
    }

    open spec fn partial_cmp_spec(&self, other: &Self) -> Option<Ordering> {
        Some(minor_order(*self, *other))
    }
}

impl core::hash::Hash for money_minor {
    /// Hashes the currency code, then the minor units, so that equal values
    /// hash alike.
    #[verifier::external_body]
    fn hash<H: core::hash::Hasher>(&self, state: &mut H) {
        self.currency_code().hash(state);
        self.minor_units.hash(state);
    }
}

} // verus!
