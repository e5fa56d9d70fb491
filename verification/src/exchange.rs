//! Currency exchange at a given rate into an ISO-4217 currency.
use crate::catalog::{catalog_currency, known_currency, Catalog, Currency, CurrencyKind};
use crate::decimal::{
    checked_mul, decimal_product, law_normalize_depends_on_value, lemma_exact_normalized,
    normalized_product, product_representable, Decimal,
};
use crate::errors::MoneyError;
use crate::model::{money_with_currency, parse_decimal, parse_decimal_spec};
use crate::text::{chars_of, push_all, spec_trim, trim_chars, upper_all, upper_chars};
use vstd::prelude::*;

verus! {

/// The code a target-currency input names: trimmed and upper-cased.
pub open spec fn target_key(input: Seq<char>) -> Seq<char> {
    upper_all(spec_trim(input))
}

/// `c` is the catalog's ISO currency for the target input.
pub open spec fn iso_target(input: Seq<char>, c: Currency) -> bool {
    &&& catalog_currency(c)
    &&& c.kind == CurrencyKind::Iso
    &&& c.code@ == target_key(input)
}

/// The catalog has no ISO currency for the target input.
pub open spec fn no_iso_target(input: Seq<char>) -> bool {
    forall|c: Currency| known_currency(c) && c.code@ == target_key(input) ==> c.kind
        != CurrencyKind::Iso
}

/// The ISO-4217 currency an exchange targets; refused with
/// `unknown ISO-4217 currency: <CODE>` when the catalog has none.
pub fn exchange_target(catalog: &'static Catalog, target_currency: &str) -> (r: Result<
    &'static Currency,
    String,
>)
    ensures
        r matches Ok(c) ==> iso_target(target_currency@, *c),
        r matches Err(e) ==> no_iso_target(target_currency@) && e@ == "unknown ISO-4217 currency: "@
            + target_key(target_currency@),
{
    let code = upper_chars(&trim_chars(&chars_of(target_currency)));
    if let Some(c) = catalog.find(&code) {
        if c.kind == CurrencyKind::Iso {
            return Ok(c);
        }
    }
    let mut msg = "unknown ISO-4217 currency: ".to_string();
    push_all(&mut msg, &code);
    Err(msg)
}

/// What an exchange gives: the target must differ from the value's currency,
/// the rate must read as a plain decimal and be positive; then the amount
/// times the rate, in the target currency: the exact product where it has a
/// decimal in the model, else what rust_decimal gives, or an overflow.
pub open spec fn exchange_spec(value: money_with_currency, target: Currency, rate: Seq<char>) -> Result<
    Decimal,
    Seq<char>,
> {
    if target.code@ == value.currency_of().code@ {
        Err("source and target currencies must differ"@)
    } else {
        match parse_decimal_spec(rate) {
            Err(e) => Err(e),
            Ok(r) => if r.mantissa <= 0 {
                Err("exchange rate must be positive"@)
            } else if product_representable(value.amount_of(), r) {
                Ok(normalized_product(value.amount_of(), r))
            } else {
                match decimal_product(value.amount_of(), r) {
                    None => Err(MoneyError::Overflow.message_spec()),
                    Some(p) => Ok(p),
                }
            },
        }
    }
}

/// Converts a value into an ISO-4217 currency at a positive rate, given as
/// decimal text, as rusty-money's `ExchangeRate::convert` does: the amount
/// times the rate, in the target currency.
pub fn money_exchange(
    catalog: &'static Catalog,
    value: money_with_currency,
    target_currency: &str,
    rate: &str,
) -> (r: Result<money_with_currency, String>)
    ensures
        no_iso_target(target_currency@) ==> (r matches Err(e) && e@
            == "unknown ISO-4217 currency: "@ + target_key(target_currency@)),
        forall|c: Currency|
            #[trigger] iso_target(target_currency@, c) ==> match exchange_spec(value, c, rate@) {
                Err(msg) => r matches Err(e) && e@ == msg,
                Ok(p) => r matches Ok(v) && v.currency_of() == c && v.amount_of() == p.normalized(),
            },
{
    let target = exchange_target(catalog, target_currency)?;
    proof {
        assert forall|c: Currency| #[trigger] iso_target(target_currency@, c) implies c == *target by {
        }
    }
    let from = value.currency_ref();
    if crate::text::compare_chars(&chars_of(target.code), &chars_of(from.code)) == 0 {
        return Err("source and target currencies must differ".to_string());
    }
    let rate = parse_decimal(rate)?;
    if rate.mantissa <= 0 {
        return Err("exchange rate must be positive".to_string());
    }
    match checked_mul(value.decimal(), rate) {
        Some(amount) => {
            proof {
                let a = value.amount_of();
                if product_representable(a, rate) {
                    lemma_exact_normalized(a.mantissa * rate.mantissa, (a.scale + rate.scale) as nat);
                    law_normalize_depends_on_value(amount, normalized_product(a, rate));
                }
            }
            Ok(money_with_currency::from_known_currency(amount, target))
        },
        None => Err(MoneyError::Overflow.message()),
    }
}

} // verus!
