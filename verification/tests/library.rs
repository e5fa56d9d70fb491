use pg_money::aggregate::{
    money_aggregate_combinefn, money_aggregate_state, money_aggregate_transfn, money_avg_finalfn,
    money_sum_finalfn,
};
use pg_money::api::{
    money_amount, money_binary_format, money_currency, money_is_negative, money_is_positive,
    money_is_zero, money_parse, money_storage_version, money_to_json, money_try_parse,
    money_with_currency_send_safe,
};
use pg_money::arithmetic::{
    money_abs, money_add, money_allocate, money_divide, money_multiply, money_negate, money_round,
    money_rounding, money_split, money_subtract,
};
use pg_money::binary::{mix_hash, payload_bounds};
use pg_money::catalog::{Catalog, CurrencyKind};
use pg_money::comparison::money_compare;
use pg_money::currency::{money_crypto_currencies, money_currencies, money_currency_info};
use pg_money::decimal::Decimal;
use pg_money::errors::{binary_error, input_error, MoneyError};
use pg_money::exchange::money_exchange;
use pg_money::formatting::{
    money_format, money_format_with, money_minor_format, money_try_parse_localized,
    parse_localized, FormatOptions, FormatPosition,
};
use pg_money::fuzz_api::{amount, binary, parse};
use pg_money::minor::{
    money_from_minor, money_minor_abs, money_minor_add, money_minor_compare, money_minor_divide,
    money_minor_from_major, money_minor_make, money_minor_multiply, money_minor_negate,
    money_minor_subtract, money_minor_units, money_to_minor, money_to_minor_lossy,
};
use pg_money::model::{money_with_currency, parse_decimal, parse_value};
use std::cmp::Ordering;

/// The catalog a value refers to lives as long as the program.
fn catalog() -> &'static Catalog {
    Box::leak(Box::new(Catalog::new().expect("the catalog must build")))
}

fn value(cat: &'static Catalog, text: &str) -> money_with_currency {
    parse_value(cat, text).unwrap()
}

fn texts(values: Vec<money_with_currency>) -> Vec<String> {
    values.iter().map(|v| v.canonical()).collect()
}

#[test]
fn canonical_text_pads_to_the_currency_exponent() {
    let cat = catalog();
    assert_eq!(value(cat, "usd 10").canonical(), "USD 10.00");
    assert_eq!(value(cat, "JPY -10.50").canonical(), "JPY -10.5");
    assert_eq!(value(cat, "btc 1.23456789").canonical(), "BTC 1.23456789");
    assert_eq!(value(cat, "ETH 1").canonical(), "ETH 1.000000000000000000");
    assert_eq!(value(cat, "usdc 2.5").canonical(), "USDC 2.500000");
    assert_eq!(money_currency(value(cat, "EUR 1.25")), "EUR");
    assert_eq!(money_amount(value(cat, "USD 1.2300")).to_text(), "1.23");
    assert_eq!(value(cat, "USD 0").canonical(), "USD 0.00");
    assert_eq!(value(cat, "USD -0.001").canonical(), "USD -0.001");
}

#[test]
fn canonical_text_parses_back_to_the_same_value() {
    let cat = catalog();
    for (mantissa, scale, code) in [
        (0_i64, 0_u32, "JPY"),
        (-123_456_789, 4, "USD"),
        (1, 18, "ETH"),
        (999_999_999, 0, "BHD"),
        (-5, 8, "BTC"),
        (42, 2, "usdc"),
    ] {
        let v = money_with_currency::from_decimal(cat, Decimal::new(mantissa, scale), code)
            .unwrap();
        assert_eq!(parse_value(cat, &v.canonical()).unwrap(), v);
    }
    let max = money_with_currency::from_decimal(cat, Decimal::max_value(), "ETH").unwrap();
    assert_eq!(parse_value(cat, &max.canonical()).unwrap(), max);
}

#[test]
fn storage_form_decodes_back_to_the_same_value() {
    let cat = catalog();
    for text in ["USD 123.45", "JPY -7", "ETH 0.000000000000000001", "USDT 0"] {
        let v = value(cat, text);
        let bytes = v.to_cbor().unwrap();
        assert_eq!(money_with_currency::from_cbor(cat, &bytes).unwrap(), v);
        assert_eq!(money_with_currency_send_safe(v).unwrap(), bytes);
    }
}

#[test]
fn storage_form_refusals_name_their_reason() {
    let cat = catalog();
    let bytes = 12345_i128.to_be_bytes();
    let future = serde_cbor::to_vec(&(2_u8, "USD", bytes, 2_u32)).unwrap();
    assert_eq!(
        money_with_currency::from_cbor(cat, &future).unwrap_err(),
        "unsupported money storage version 2"
    );
    let lower = serde_cbor::to_vec(&(1_u8, "usd", bytes, 2_u32)).unwrap();
    assert_eq!(
        money_with_currency::from_cbor(cat, &lower).unwrap_err(),
        "money currency is not canonically encoded"
    );
    let unknown = serde_cbor::to_vec(&(1_u8, "XYZ", bytes, 2_u32)).unwrap();
    assert_eq!(
        money_with_currency::from_cbor(cat, &unknown).unwrap_err(),
        "unknown currency: XYZ"
    );
    let padded = serde_cbor::to_vec(&(1_u8, "USD", 1230_i128.to_be_bytes(), 3_u32)).unwrap();
    assert_eq!(
        money_with_currency::from_cbor(cat, &padded).unwrap_err(),
        "money amount is not canonically encoded"
    );
    let padded_code = serde_cbor::to_vec(&(1_u8, " USD", bytes, 2_u32)).unwrap();
    assert_eq!(
        money_with_currency::from_cbor(cat, &padded_code).unwrap_err(),
        "money currency is not canonically encoded"
    );
    let mut trailing = serde_cbor::to_vec(&(2_u8, "USD", bytes, 2_u32)).unwrap();
    trailing.push(0x00);
    assert_eq!(
        money_with_currency::from_cbor(cat, &trailing).unwrap_err(),
        "unsupported money storage version 2"
    );
    let mut extra = value(cat, "USD 1").to_cbor().unwrap();
    extra.push(0x00);
    assert!(money_with_currency::from_cbor(cat, &extra).is_err());
    let minor_padded = serde_cbor::to_vec(&(1_u8, "USD ", 5_i64)).unwrap();
    assert_eq!(
        pg_money::minor::money_minor::from_cbor(cat, &minor_padded).unwrap_err(),
        "money currency is not canonically encoded"
    );
    assert_eq!(
        pg_money::minor::money_minor::from_storage(cat, 1, "USD", 5).unwrap().minor_units(),
        5
    );
    let scale = serde_cbor::to_vec(&(1_u8, "USD", bytes, 29_u32)).unwrap();
    assert!(money_with_currency::from_cbor(cat, &scale).is_err());
    assert!(money_with_currency::from_cbor(cat, &[0xff, 0x00]).is_err());
}

#[test]
fn text_refusals_name_their_reason() {
    let cat = catalog();
    let long = format!("USD {}", "1".repeat(130));
    assert_eq!(parse_value(cat, &long).unwrap_err(), "input exceeds 128 bytes");
    assert_eq!(parse_value(cat, "USD 1\0").unwrap_err(), "input contains a NUL byte");
    assert_eq!(parse_value(cat, "USD").unwrap_err(), "expected '<currency> <amount>'");
    assert_eq!(parse_value(cat, "USD 1 2").unwrap_err(), "expected '<currency> <amount>'");
    assert_eq!(parse_value(cat, "US 1").unwrap_err(), "expected '<currency> <amount>'");
    assert_eq!(parse_value(cat, "XYZ 1").unwrap_err(), "unknown currency: XYZ");
    assert_eq!(
        parse_value(cat, "USD 1.2.3").unwrap_err(),
        "amount must be a plain signed decimal"
    );
    assert_eq!(
        parse_value(cat, "USD 100000000000000000000000000000000").unwrap_err(),
        "amount exceeds decimal precision"
    );
    assert_eq!(parse_decimal("").unwrap_err(), "amount is empty");
    assert_eq!(
        parse_decimal("79228162514264337593543950336.5").unwrap_err(),
        "amount exceeds decimal precision"
    );
    assert_eq!(
        parse_decimal("79228162514264337593543950335.0").unwrap(),
        Decimal::max_value()
    );
    assert_eq!(parse_decimal("-.5").unwrap(), Decimal::new(-5, 1));
    assert!(money_try_parse(cat, "USD x").is_none());
    assert_eq!(money_parse(cat, "  usd   7 ").unwrap().canonical(), "USD 7.00");
    assert_eq!(
        input_error("amount is empty"),
        "invalid input syntax for type money_with_currency: amount is empty"
    );
    assert_eq!(
        binary_error("missing protocol buffer"),
        "invalid binary representation for type money_with_currency: missing protocol buffer"
    );
}

#[test]
fn currency_metadata_comes_from_rusty_money() {
    let cat = catalog();
    let usd = money_currency_info(cat, "usd").unwrap();
    assert_eq!(usd.code, "USD");
    assert_eq!(usd.numeric_code, Some("840"));
    assert_eq!(usd.exponent, 2);
    assert_eq!(usd.symbol, "$");
    assert_eq!(usd.locale, "en-us");
    assert_eq!(usd.kind, "iso");
    let btc = money_currency_info(cat, "btc").unwrap();
    assert_eq!(btc.code, "BTC");
    assert_eq!(btc.kind, "crypto");
    assert_eq!(btc.numeric_code, None);
    assert_eq!(btc.exponent, 8);
    assert_eq!(btc.minor_units, 100_000_000);
    assert_eq!(btc.name, "Bitcoin");
    assert_eq!(btc.symbol, "₿");
    assert_eq!(money_currency_info(cat, "nope").unwrap_err(), "unknown currency: NOPE");

    let iso = money_currencies(cat);
    assert!(iso.len() > 150);
    assert!(iso.windows(2).all(|w| w[0].code < w[1].code));
    assert_eq!(
        iso.iter().find(|row| row.numeric_code == Some("392")).unwrap().name,
        "Japanese Yen"
    );
    let crypto = money_crypto_currencies(cat);
    assert_eq!(crypto.len(), 14);
    assert!(crypto.iter().all(|row| row.code == row.code.to_uppercase()));
    assert!(crypto.windows(2).all(|w| w[0].code < w[1].code));
    assert_eq!(CurrencyKind::Crypto.as_str(), "crypto");
}

#[test]
fn localized_parsing_and_custom_formatting_follow_the_locale() {
    let cat = catalog();
    assert_eq!(parse_localized(cat, "1.000,99", "EUR").unwrap().canonical(), "EUR 1000.99");
    assert_eq!(
        parse_localized(cat, "1,00,000.50", "INR").unwrap().canonical(),
        "INR 100000.50"
    );
    assert_eq!(
        parse_localized(cat, "1,000.12345678", "BTC").unwrap().canonical(),
        "BTC 1000.12345678"
    );
    assert!(money_try_parse_localized(cat, "1,00", "USD").is_none());
    assert_eq!(parse_localized(cat, "1,00", "USD").unwrap_err(), "Amount not parsable");
    assert_eq!(parse_localized(cat, "1", "XYZ").unwrap_err(), "unknown currency: XYZ");

    let options = FormatOptions {
        digit_separator: Some("/".to_string()),
        exponent_separator: Some(",".to_string()),
        separator_pattern: None,
        positions: Some(vec![
            FormatPosition::Sign,
            FormatPosition::Space,
            FormatPosition::Symbol,
            FormatPosition::Amount,
            FormatPosition::Space,
            FormatPosition::Code,
        ]),
        rounding: Some(2),
        include_symbol: None,
        include_code: Some(true),
    };
    assert_eq!(
        money_format_with(value(cat, "USD -1234.5"), options).unwrap(),
        "- $1/234,50 USD"
    );
}

fn no_options() -> FormatOptions {
    FormatOptions {
        digit_separator: None,
        exponent_separator: None,
        separator_pattern: None,
        positions: None,
        rounding: None,
        include_symbol: None,
        include_code: None,
    }
}

#[test]
fn formatting_options_are_validated() {
    let cat = catalog();
    let v = value(cat, "USD 1234.5");
    assert_eq!(money_format_with(v, no_options()).unwrap(), "$1,234.50");
    assert_eq!(money_format(v), "$1,234.50");
    let mut o = no_options();
    o.digit_separator = Some("::".to_string());
    assert_eq!(
        money_format_with(v, o).unwrap_err(),
        "digit_separator must contain exactly one character"
    );
    let mut o = no_options();
    o.exponent_separator = Some(String::new());
    assert_eq!(
        money_format_with(v, o).unwrap_err(),
        "exponent_separator must contain exactly one character"
    );
    let mut o = no_options();
    o.digit_separator = Some(".".to_string());
    assert_eq!(
        money_format_with(v, o).unwrap_err(),
        "digit_separator and exponent_separator must differ"
    );
    let mut o = no_options();
    o.separator_pattern = Some(vec![3, 10]);
    assert_eq!(
        money_format_with(v, o).unwrap_err(),
        "separator_pattern must contain between 1 and 16 widths from 1 to 9"
    );
    let mut o = no_options();
    o.positions = Some(vec![]);
    assert_eq!(
        money_format_with(v, o).unwrap_err(),
        "positions must contain between 1 and 16 entries"
    );
    let mut o = no_options();
    o.rounding = Some(29);
    assert_eq!(money_format_with(v, o).unwrap_err(), "rounding must be between 0 and 28");
    let mut o = no_options();
    o.include_symbol = Some(false);
    o.rounding = Some(0);
    assert_eq!(money_format_with(v, o).unwrap(), "1,234");
}

#[test]
fn minor_unit_conversions_follow_fast_money() {
    let cat = catalog();
    assert_eq!(money_from_minor(cat, 12_345, "USD").unwrap().canonical(), "USD 123.45");
    assert_eq!(money_to_minor(value(cat, "JPY 123")), Ok(123));
    assert_eq!(money_to_minor_lossy(value(cat, "USD 1.239")), Ok(123));
    assert_eq!(money_to_minor_lossy(value(cat, "USD -1.239")), Ok(-123));
    assert_eq!(
        money_from_minor(cat, 100_000_001, "BTC").unwrap().canonical(),
        "BTC 1.00000001"
    );
    assert_eq!(money_to_minor(value(cat, "BTC 1.00000001")), Ok(100_000_001));
    assert_eq!(money_to_minor(value(cat, "USD 1.001")), Err(MoneyError::PrecisionLoss));
    assert_eq!(MoneyError::PrecisionLoss.message(), "Conversion would lose precision");
    assert_eq!(
        money_to_minor(value(cat, "USD 100000000000000000")),
        Err(MoneyError::Overflow)
    );

    let a = money_minor_make(cat, 1000, "USD").unwrap();
    let b = money_minor_make(cat, 500, "USD").unwrap();
    assert_eq!(money_minor_add(a, b).unwrap().canonical(), "USD 15.00");
    assert_eq!(money_minor_subtract(a, b).unwrap().canonical(), "USD 5.00");
    let c = money_minor_make(cat, 1001, "USD").unwrap();
    let third = money_minor_divide(c, 3).unwrap();
    assert_eq!(money_minor_multiply(third, 3).unwrap().canonical(), "USD 9.99");
    assert_eq!(money_minor_units(money_minor_divide(money_minor_make(cat, -7, "USD").unwrap(), 2).unwrap()), -3);
    assert_eq!(money_minor_divide(c, 0), Err(MoneyError::DivisionByZero));
    let min = money_minor_make(cat, i64::MIN, "USD").unwrap();
    assert_eq!(money_minor_divide(min, -1), Err(MoneyError::Overflow));
    assert_eq!(money_minor_abs(min), Err(MoneyError::Overflow));
    assert_eq!(money_minor_negate(min), Err(MoneyError::Overflow));
    assert_eq!(money_minor_multiply(min, 2), Err(MoneyError::Overflow));
    assert_eq!(money_minor_units(money_minor_abs(money_minor_make(cat, -5, "USD").unwrap()).unwrap()), 5);
    let eur = money_minor_make(cat, 1, "EUR").unwrap();
    assert_eq!(
        money_minor_add(a, eur).unwrap_err().message(),
        "Currency mismatch: expected USD, got EUR"
    );
    assert_eq!(money_minor_format(a), "$10.00");
}

#[test]
fn major_unit_construction_reports_overflow() {
    let cat = catalog();
    let usd = money_minor_from_major(cat, 123, "USD").unwrap();
    assert_eq!(money_minor_units(usd), 12_300);
    let eth = money_minor_from_major(cat, 9, "ETH").unwrap();
    assert_eq!(money_minor_units(eth), 9_000_000_000_000_000_000_i64);
    assert_eq!(money_minor_from_major(cat, 10, "ETH").unwrap_err(), "Arithmetic overflow");
    assert_eq!(money_minor_units(money_minor_from_major(cat, 0, "ETH").unwrap()), 0);
}

#[test]
fn strict_comparison_refuses_mixed_currencies() {
    let cat = catalog();
    assert_eq!(money_compare(value(cat, "USD 1"), value(cat, "USD 2")), Ok(-1));
    assert_eq!(money_compare(value(cat, "BTC 2"), value(cat, "BTC 2.0")), Ok(0));
    assert_eq!(money_compare(value(cat, "USD 3"), value(cat, "USD 2")), Ok(1));
    assert_eq!(
        money_compare(value(cat, "USD 1"), value(cat, "EUR 1")).unwrap_err().message(),
        "Currency mismatch: expected USD, got EUR"
    );
    let lower = money_minor_from_major(cat, 1, "USD").unwrap();
    let higher = money_minor_from_major(cat, 2, "USD").unwrap();
    assert_eq!(money_minor_compare(lower, higher), Ok(-1));
    let eur = money_minor_from_major(cat, 1, "EUR").unwrap();
    assert_eq!(
        money_minor_compare(lower, eur).unwrap_err().message(),
        "Currency mismatch: expected USD, got EUR"
    );
}

#[test]
fn total_order_sorts_by_code_then_amount() {
    let cat = catalog();
    assert!(value(cat, "EUR 999") < value(cat, "USD -999"));
    assert_eq!(value(cat, "USD 10.00"), value(cat, "USD 10.0000"));
    assert_eq!(
        value(cat, "USD 2").partial_cmp(&value(cat, "USD 10")),
        Some(Ordering::Less)
    );
    assert_eq!(
        value(cat, "USD 10").partial_cmp(&value(cat, "USD 2")),
        Some(Ordering::Greater)
    );
    let a = money_minor_make(cat, 5, "EUR").unwrap();
    let b = money_minor_make(cat, -5, "USD").unwrap();
    assert!(a < b);
    assert_ne!(a, b);
}

#[test]
fn arithmetic_rounding_and_allocation_work() {
    let cat = catalog();
    assert_eq!(
        money_add(value(cat, "USD 10"), value(cat, "USD 2.50")).unwrap().canonical(),
        "USD 12.50"
    );
    assert_eq!(
        money_subtract(value(cat, "USD 10"), value(cat, "USD 2.50")).unwrap().canonical(),
        "USD 7.50"
    );
    assert_eq!(
        money_round(value(cat, "USD 10.005"), 2, money_rounding::half_up).unwrap().canonical(),
        "USD 10.01"
    );
    assert_eq!(
        money_round(value(cat, "USD 10.005"), 2, money_rounding::half_down).unwrap().canonical(),
        "USD 10.00"
    );
    assert_eq!(
        money_round(value(cat, "USD -10.015"), 2, money_rounding::half_even).unwrap().canonical(),
        "USD -10.02"
    );
    assert_eq!(
        money_round(value(cat, "USD 1"), 29, money_rounding::half_even).unwrap_err(),
        "digits must be between 0 and 28"
    );
    assert_eq!(
        texts(money_split(value(cat, "USD 10"), 3).unwrap()),
        ["USD 3.34", "USD 3.33", "USD 3.33"]
    );
    assert_eq!(
        texts(money_split(value(cat, "USD -1.005"), 2).unwrap()),
        ["USD -0.50", "USD -0.51"]
    );
    assert_eq!(
        texts(money_allocate(value(cat, "USD 10.01"), vec![1, 2, 3]).unwrap()),
        ["USD 1.67", "USD 3.34", "USD 5.00"]
    );
    assert_eq!(
        texts(money_allocate(value(cat, "USD -10.01"), vec![1, 2, 3]).unwrap()),
        ["USD -1.66", "USD -3.34", "USD -5.01"]
    );
    assert_eq!(
        texts(money_allocate(value(cat, "BTC 0.00000007"), vec![1, 2, 3]).unwrap()),
        ["BTC 0.00000002", "BTC 0.00000002", "BTC 0.00000003"]
    );
    assert_eq!(
        money_allocate(value(cat, "USD 1"), vec![1, 0, 1]).unwrap_err(),
        "allocation weights must be positive integers"
    );
    assert_eq!(money_allocate(value(cat, "USD 1"), vec![]).unwrap_err(), "Ratio was not valid");
    assert_eq!(
        money_split(value(cat, "USD 1"), 10001).unwrap_err(),
        "parts must be between 1 and 10000"
    );
    assert_eq!(
        money_split(value(cat, "USD 1"), 0).unwrap_err(),
        "parts must be between 1 and 10000"
    );
    assert_eq!(
        money_allocate(value(cat, "USD 1"), vec![1; 10001]).unwrap_err(),
        "allocation accepts at most 10000 weights"
    );
    assert_eq!(
        money_multiply(value(cat, "USD 10"), Decimal::new(25, 1)).unwrap().canonical(),
        "USD 25.00"
    );
    assert_eq!(
        money_divide(value(cat, "USD 1"), Decimal::zero()).unwrap_err().message(),
        "Division by zero"
    );
    assert_eq!(
        money_divide(value(cat, "USD 10"), Decimal::new(4, 0)).unwrap().canonical(),
        "USD 2.50"
    );
    assert_eq!(money_abs(value(cat, "USD -2.5")).canonical(), "USD 2.50");
    assert_eq!(money_negate(value(cat, "USD 2.5")).canonical(), "USD -2.50");
}

#[test]
fn exact_sums_and_products_are_unrounded() {
    let cat = catalog();
    let x = value(cat, "USD 19.99");
    let y = value(cat, "USD 0.015");
    let sum = money_add(x, y).unwrap();
    assert_eq!(money_amount(sum).to_text(), "20.005");
    assert_eq!(money_subtract(sum, y).unwrap(), x);
    let big = value(cat, "USD 39614081257132168796771975167");
    let back = money_subtract(money_add(big, big).unwrap(), big).unwrap();
    assert_eq!(back, big);
    assert_eq!(
        money_amount(money_multiply(value(cat, "USD 10.5"), Decimal::new(225, 2)).unwrap())
            .to_text(),
        "23.625"
    );
    assert_eq!(
        money_amount(money_multiply(value(cat, "BTC -0.00000003"), Decimal::new(-7, 3)).unwrap())
            .to_text(),
        "0.00000000021"
    );
}

#[test]
fn exactness_reaches_results_that_strip_to_the_model() {
    let cat = catalog();
    let tiny = value(cat, "USD 0.000000000000000000000000005");
    let product = money_multiply(tiny, Decimal::new(2, 2)).unwrap();
    assert_eq!(money_amount(product).to_text(), "0.0000000000000000000000000001");
    let exchanged = money_exchange(cat, tiny, "EUR", "0.02").unwrap();
    assert_eq!(exchanged.canonical(), "EUR 0.0000000000000000000000000001");

    let smallest = value(cat, "USD 0.0000000000000000000000000001");
    let one = value(cat, "USD 1");
    let sum = money_add(smallest, one).unwrap();
    assert_eq!(money_amount(sum).to_text(), "1.0000000000000000000000000001");
    assert_eq!(money_subtract(sum, one).unwrap(), smallest);

    // Past the model the sum is rounded, and subtracting no longer undoes it.
    let max = value(cat, "USD 79228162514264337593543950335");
    let rounded = money_add(smallest, max).unwrap();
    assert_eq!(rounded, max);
    assert_eq!(money_subtract(rounded, max).unwrap().canonical(), "USD 0.00");

    assert_eq!(
        money_multiply(max, Decimal::new(2, 0)).unwrap_err().message(),
        "Arithmetic overflow"
    );
    assert_eq!(
        money_subtract(value(cat, "USD -79228162514264337593543950335"), one)
            .unwrap_err()
            .message(),
        "Arithmetic overflow"
    );
    assert_eq!(
        money_allocate(value(cat, "ETH 79228162514264337593543950335"), vec![1, 2]).unwrap_err(),
        "Arithmetic overflow"
    );
}

#[test]
fn every_catalog_holds_the_same_sorted_currencies() {
    let first = Catalog::new().unwrap();
    let second = Catalog::new().unwrap();
    let codes = |c: &Catalog| c.currencies().iter().map(|x| x.code()).collect::<Vec<_>>();
    assert_eq!(codes(&first), codes(&second));
    let list = codes(&first);
    assert!(list.windows(2).all(|w| w[0] < w[1]));
    assert!(list.contains(&"USD") && list.contains(&"USDC") && list.contains(&"ZEC"));
}

#[test]
fn rounding_twice_equals_rounding_once() {
    let cat = catalog();
    for text in ["USD 10.005", "JPY -123.555", "BHD 0.0005", "ETH 1.23456789"] {
        for rule in [money_rounding::half_up, money_rounding::half_down, money_rounding::half_even] {
            let once = money_round(value(cat, text), 2, rule).unwrap();
            assert_eq!(money_round(once, 2, rule).unwrap(), once);
        }
    }
}

#[test]
fn split_parts_add_up_to_the_floored_amount() {
    let cat = catalog();
    let parts = money_split(value(cat, "USD 10.019"), 7).unwrap();
    let total: i64 = parts.iter().map(|p| money_to_minor(*p).unwrap()).sum();
    assert_eq!(total, 1001);
    let shares = money_allocate(value(cat, "JPY -1000"), vec![3, 1, 7]).unwrap();
    let total: i64 = shares.iter().map(|p| money_to_minor(*p).unwrap()).sum();
    assert_eq!(total, -1000);
}

#[test]
fn overflow_and_mismatch_are_reported() {
    let cat = catalog();
    let big = value(cat, "USD 79228162514264337593543950335");
    assert_eq!(
        money_add(big, value(cat, "USD 1")).unwrap_err().message(),
        "Arithmetic overflow"
    );
    assert_eq!(
        money_add(value(cat, "USD 1"), value(cat, "EUR 1")).unwrap_err().message(),
        "Currency mismatch: expected USD, got EUR"
    );
    assert_eq!(MoneyError::InvalidCurrency.message(), "Currency was not valid");
}

#[test]
fn exchange_converts_at_a_positive_rate() {
    let cat = catalog();
    assert_eq!(
        money_exchange(cat, value(cat, "USD 100"), "EUR", "0.85")
            .unwrap()
            .canonical(),
        "EUR 85.00"
    );
    assert_eq!(
        money_exchange(cat, value(cat, "BTC 2"), " usd ", "50000")
            .unwrap()
            .canonical(),
        "USD 100000.00"
    );
    assert_eq!(
        money_exchange(cat, value(cat, "USD 1"), "usd", "1").unwrap_err(),
        "source and target currencies must differ"
    );
    assert_eq!(
        money_exchange(cat, value(cat, "USD 1"), "EUR", "-1").unwrap_err(),
        "exchange rate must be positive"
    );
    assert_eq!(
        money_exchange(cat, value(cat, "USD 1"), "BTC", "1").unwrap_err(),
        "unknown ISO-4217 currency: BTC"
    );
    assert_eq!(
        money_exchange(cat, value(cat, "USD 1"), "EUR", "1e3").unwrap_err(),
        "amount must be a plain signed decimal"
    );
}

#[test]
fn aggregates_sum_and_average_same_currency_values() {
    let cat = catalog();
    let mut state: Option<money_aggregate_state> = None;
    for text in ["USD 10.00", "USD 2.50"] {
        state = Some(money_aggregate_transfn(state, Some(value(cat, text))).unwrap());
    }
    state = Some(money_aggregate_transfn(state, None).unwrap());
    assert_eq!(state.unwrap().count, 2);
    assert_eq!(money_sum_finalfn(state).unwrap().canonical(), "USD 12.50");
    assert_eq!(money_avg_finalfn(state).unwrap().unwrap().canonical(), "USD 6.25");
    assert!(money_sum_finalfn(None).is_none());
    assert!(money_avg_finalfn(Some(money_aggregate_state::default())).unwrap().is_none());

    let other = money_aggregate_transfn(None, Some(value(cat, "USD 1"))).ok();
    let combined = money_aggregate_combinefn(state, other).unwrap();
    assert_eq!(combined.count, 3);
    assert_eq!(combined.total.unwrap().canonical(), "USD 13.50");

    let mixed = money_aggregate_transfn(state, Some(value(cat, "EUR 1")));
    assert_eq!(mixed.unwrap_err(), "Currency mismatch: expected USD, got EUR");
}

fn fold(cat: &'static Catalog, texts: &[&str]) -> Result<Option<money_aggregate_state>, String> {
    let mut state: Option<money_aggregate_state> = None;
    for text in texts {
        state = Some(money_aggregate_transfn(state, Some(value(cat, text)))?);
    }
    Ok(state)
}

#[test]
fn combining_partial_aggregates_matches_the_joined_aggregate() {
    let cat = catalog();
    let left = ["USD 1.25", "USD 2.5", "USD -0.125"];
    let right = ["USD 0.005", "USD -3", "USD 7"];
    let joined: Vec<&str> = left.iter().chain(right.iter()).copied().collect();
    let whole = fold(cat, &joined).unwrap().unwrap();
    let combined =
        money_aggregate_combinefn(fold(cat, &left).unwrap(), fold(cat, &right).unwrap())
            .unwrap();
    assert_eq!(combined.count, whole.count);
    assert_eq!(combined.total, whole.total);
    assert_eq!(money_amount(combined.total.unwrap()).to_text(), "7.63");

    let euros = ["EUR 1", "EUR 2"];
    let mixed: Vec<&str> = left.iter().chain(euros.iter()).copied().collect();
    let refused = fold(cat, &mixed).unwrap_err();
    let combined_refusal =
        money_aggregate_combinefn(fold(cat, &left).unwrap(), fold(cat, &euros).unwrap())
            .unwrap_err();
    assert_eq!(refused, combined_refusal);
    assert_eq!(refused, "Currency mismatch: expected USD, got EUR");

    let empty = money_aggregate_combinefn(None, fold(cat, &right).unwrap()).unwrap();
    assert_eq!(empty.count, 3);
    assert_eq!(empty.total, fold(cat, &right).unwrap().unwrap().total);
}

#[test]
fn value_accessors_and_json_fields() {
    let cat = catalog();
    let v = value(cat, "USD 123.45");
    assert!(money_is_positive(v));
    assert!(!money_is_negative(v));
    assert!(!money_is_zero(v));
    assert!(money_is_zero(value(cat, "USD -0.00")));
    assert!(money_is_negative(value(cat, "USD -0.01")));
    let json = money_to_json(v);
    assert_eq!(json.amount, "123.45");
    assert_eq!(json.currency, "USD");
    assert_eq!(json.formatted, "$123.45");
    assert_eq!(money_storage_version(), 1);
    assert_eq!(money_binary_format(), "cbor-array-v1");
}

#[test]
fn protocol_bounds_and_hash_mixing() {
    assert_eq!(payload_bounds(-1, 5).unwrap_err(), "invalid protocol cursor");
    assert_eq!(payload_bounds(6, 5).unwrap_err(), "invalid protocol cursor");
    assert_eq!(
        payload_bounds(5, 5).unwrap_err(),
        "payload length must be between 1 and 128 bytes"
    );
    assert_eq!(
        payload_bounds(0, 129).unwrap_err(),
        "payload length must be between 1 and 128 bytes"
    );
    assert_eq!(payload_bounds(2, 28).unwrap(), (2, 26));
    assert_eq!(mix_hash(0, 0), -2152535657050944081);
    assert_eq!(mix_hash(12345, -1), 258845703711660628);
}

#[test]
fn decimal_text_matches_rust_decimal_display() {
    for (m, s) in [(-5_i64, 3_u32), (12345, 2), (0, 0), (7, 0), (-100, 1), (1, 28)] {
        let expected = rust_decimal::Decimal::new(m, s).to_string();
        assert_eq!(Decimal::new(m, s).to_text(), expected);
    }
    assert_eq!(Decimal::new(1200, 3).normalize(), Decimal::new(12, 1));
    assert_eq!(Decimal::new(0, 5).normalize(), Decimal::zero());
}

#[test]
fn fuzz_entry_points_accept_any_input() {
    let cat = catalog();
    parse(cat, "USD 1");
    parse(cat, "\u{0}\u{0}");
    amount("-1.5");
    amount("..");
    binary(cat, &[0x84, 0x01, 0x63, b'U', b'S', b'D']);
    binary(cat, &[]);
}
