//! Entry points for fuzzing the parsers and the binary decoder: each runs its
//! input through the library and discards the outcome. The harness builds the
//! catalog once and hands it to every run.
use crate::catalog::Catalog;
use crate::formatting::money_format;
use crate::model::{money_with_currency, parse_decimal, parse_value};
use vstd::prelude::*;

verus! {

/// Runs the canonical-text parser on the input.
pub fn parse(catalog: &'static Catalog, input: &str) {
    let _ = parse_value(catalog, input);
}

/// Decodes the input as a stored value and, when it decodes, writes its
/// canonical and localized texts.
pub fn binary(catalog: &'static Catalog, input: &[u8]) {
    if let Ok(value) = money_with_currency::from_cbor(catalog, input) {
        let _ = value.canonical();
        let _ = money_format(value);
    }
}

/// Runs the amount parser on the input.
pub fn amount(input: &str) {
    let _ = parse_decimal(input);
}

} // verus!
