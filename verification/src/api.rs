//! The value-level functions of the SQL surface of `money_with_currency`.
use crate::binary::{bytes_result, cbor_storage_encoding};
use crate::catalog::Catalog;
use crate::decimal::Decimal;
use crate::errors::binary_error_spec;
use crate::formatting::{display_money, displayed_money};
use crate::model::{
    canonical_amount_text, canonical_text, currency_found, currency_missing, money_with_currency,
    parse_value, parse_value_error, parsed_value, unknown_currency_message, valid_value,
    STORAGE_VERSION,
};
use crate::text::{chars_of, push_all};
use vstd::prelude::*;

verus! {

broadcast use vstd::string::group_string_axioms;

/// A value from a decimal amount and a currency code (`money_make`).
pub fn money_make(catalog: &'static Catalog, amount: Decimal, currency: &str) -> (r: Result<
    money_with_currency,
    String,
>)
    requires
        amount.wf(),
    ensures
        r matches Ok(v) ==> v.amount_of() == amount.normalized() && currency_found(
            currency@,
            v.currency_of(),
        ),
        r matches Err(e) ==> currency_missing(currency@) && e@ == unknown_currency_message(
            currency@,
        ),
{
    money_with_currency::from_decimal(catalog, amount, currency)
}

/// Parses the canonical text (`money_parse`, and the cast from text).
pub fn money_parse(catalog: &'static Catalog, input: &str) -> (r: Result<money_with_currency, String>)
    ensures
        r matches Err(e) ==> parse_value_error(input@) == Some(e@),
        r matches Ok(v) ==> parse_value_error(input@) is None && parsed_value(input@, v),
        parse_value_error(input@) is None ==> r is Ok,
        forall|v: money_with_currency|
            valid_value(v) && #[trigger] canonical_text(v) == input@ ==> r is Ok && r->Ok_0 == v,
{
    parse_value(catalog, input)
}

/// Parses the canonical text, `None` for a refused text (`money_try_parse`).
pub fn money_try_parse(catalog: &'static Catalog, input: &str) -> (r: Option<money_with_currency>)
    ensures
        r is Some <==> parse_value_error(input@) is None,
        r matches Some(v) ==> parsed_value(input@, v),
{
    match parse_value(catalog, input) {
        Ok(v) => Some(v),
        Err(_) => None,
    }
}

/// The amount (`money_amount`).
pub fn money_amount(value: money_with_currency) -> (r: Decimal)
    ensures
        r == value.amount_of(),
{
    value.decimal()
}

/// The currency code (`money_currency`).
pub fn money_currency(value: money_with_currency) -> (r: String)
    ensures
        r@ == value.currency_of().code@,
{
    value.currency_of_code_string()
}

impl money_with_currency {
    fn currency_of_code_string(&self) -> (r: String)
        ensures
            r@ == self.currency_of().code@,
    {
        self.currency_ref().to_string()
    }
}

pub fn money_is_zero(value: money_with_currency) -> (r: bool)
    ensures
        r == (value.amount_of().mantissa == 0),
{
    value.decimal().is_zero()
}

pub fn money_is_positive(value: money_with_currency) -> (r: bool)
    ensures
        r == (value.amount_of().mantissa > 0),
{
    value.decimal().is_sign_positive()
}

pub fn money_is_negative(value: money_with_currency) -> (r: bool)
    ensures
        r == (value.amount_of().mantissa < 0),
{
    value.decimal().is_sign_negative()
}

/// The fields of `money_to_json`: the canonical amount, the currency code and
/// the localized text.
#[derive(Clone, Debug)]
pub struct MoneyJson {
    pub amount: String,
    pub currency: String,
    pub formatted: String,
}

pub fn money_to_json(value: money_with_currency) -> (r: MoneyJson)
    ensures
        r.amount@ == canonical_amount_text(value.amount_of(), value.currency_of().exponent as nat),
        r.currency@ == value.currency_of().code@,
        r.formatted@ == displayed_money(value.amount_of(), value.currency_of()),
{
    MoneyJson {
        amount: value.canonical_amount(),
        currency: value.currency_of_code_string(),
        formatted: display_money(value.decimal(), *value.currency_ref()),
    }
}

/// Version of the storage tuple (`money_storage_version`).
pub fn money_storage_version() -> (r: i32)
    ensures
        r == STORAGE_VERSION,
{
    1
}

/// Name of the binary form (`money_binary_format`).
pub fn money_binary_format() -> (r: &'static str)
    ensures
        r@ == "cbor-array-v1"@,
{
    "cbor-array-v1"
}

/// The canonical text (the cast to text).
pub fn money_with_currency_to_text(value: money_with_currency) -> (r: String)
    ensures
        r@ == canonical_text(value),
{
    value.canonical()
}

/// The binary send form: the CBOR storage tuple, or the refusal with its
/// reason.
pub fn money_with_currency_send_safe(value: money_with_currency) -> (r: Result<Vec<u8>, String>)
    ensures
        match cbor_storage_encoding(
            STORAGE_VERSION,
            value.currency_of().code@,
            crate::binary::be_bytes_spec(value.amount_of().mantissa),
            value.amount_of().scale,
        ) {
            Ok(b) => r matches Ok(x) && x@ == b,
            Err(e) => r matches Err(m) && m@ == binary_error_spec("could not encode value: "@ + e),
        },
{
    match value.to_cbor() {
        Ok(b) => Ok(b),
        Err(e) => {
            let mut reason = "could not encode value: ".to_string();
            push_all(&mut reason, &chars_of(e.as_str()));
            Err(crate::errors::binary_error(reason.as_str()))
        },
    }
}

} // verus!
