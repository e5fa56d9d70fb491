use pg_money::aggregate::money_aggregate_state;
use pg_money::catalog::Catalog;
use pg_money::decimal::Decimal;
use pg_money::errors::MoneyError;
use pg_money::minor::money_minor;
use pg_money::model::{money_with_currency, parse_value, MAX_BINARY_BYTES, STORAGE_VERSION};
use std::collections::hash_map::DefaultHasher;
use std::hash::{Hash, Hasher};

/// The catalog a value refers to lives as long as the program.
fn catalog() -> &'static Catalog {
    Box::leak(Box::new(Catalog::new().expect("the catalog must build")))
}

/// The JSON form of the aggregate state: the count and, for the total, the
/// storage tuple that the validated decoder reads back.
type StateJson = (i64, Option<(u8, String, [u8; 16], u32)>);

fn state_to_json(state: &money_aggregate_state) -> Vec<u8> {
    let total = state.total.map(|t| {
        let (version, code, bytes, scale) = t.storage_parts();
        let array: [u8; 16] = bytes.as_slice().try_into().unwrap();
        (version, code.to_string(), array, scale)
    });
    serde_json::to_vec(&(state.count, total)).unwrap()
}

fn state_from_json(cat: &'static Catalog, data: &[u8]) -> money_aggregate_state {
    let (count, total): StateJson = serde_json::from_slice(data).unwrap();
    let total = total.map(|(version, code, bytes, scale)| {
        money_with_currency::from_storage(cat, version, &code, &bytes, scale).unwrap()
    });
    money_aggregate_state { count, total }
}

#[test]
fn aggregate_state_json_round_trip_uses_validated_money_decoder() {
    let cat = catalog();
    let state = money_aggregate_state {
        count: 1,
        total: Some(parse_value(cat, "USD 123.45").unwrap()),
    };
    let encoded = state_to_json(&state);
    let decoded = state_from_json(cat, &encoded);
    assert_eq!(decoded.count, 1);
    assert_eq!(decoded.total.unwrap().canonical(), "USD 123.45");
}

#[test]
fn cbor_round_trip_preserves_minor_units_and_currency() {
    let cat = catalog();
    let value = money_minor::from_units(cat, 12_345, "USD").expect("USD must be available");
    let encoded = value.to_cbor().expect("money_minor must serialize");
    let decoded = money_minor::from_cbor(cat, &encoded).expect("money_minor must deserialize");

    assert_eq!(decoded, value);
    assert_eq!(decoded.currency_code(), "USD");
    assert_eq!(decoded.minor_units(), 12_345);
    assert!(encoded.len() <= MAX_BINARY_BYTES);
}

#[test]
fn cbor_rejects_noncanonical_currency_and_unknown_version() {
    let cat = catalog();
    let lowercase =
        serde_cbor::to_vec(&(STORAGE_VERSION, "usd", 100_i64)).expect("test tuple must serialize");
    let future = serde_cbor::to_vec(&(STORAGE_VERSION + 1, "USD", 100_i64))
        .expect("test tuple must serialize");

    assert!(money_minor::from_cbor(cat, &lowercase).is_err());
    assert!(money_minor::from_cbor(cat, &future).is_err());
}

#[test]
fn binary_format_is_stable_and_validated() {
    let cat = catalog();
    let value = parse_value(cat, "USD 123.45").unwrap();
    let encoded = value.to_cbor().unwrap();
    assert_eq!(
        encoded,
        [
            0x84, 0x01, 0x63, b'U', b'S', b'D', 0x90, 0x00, 0x00, 0x00, 0x00, 0x00, 0x00, 0x00,
            0x00, 0x00, 0x00, 0x00, 0x00, 0x00, 0x00, 0x18, 0x30, 0x18, 0x39, 0x02,
        ]
    );
    assert_eq!(money_with_currency::from_cbor(cat, &encoded).unwrap(), value);
    assert_eq!(value.canonical(), "USD 123.45");
    assert_eq!(parse_value(cat, "JPY -10.50").unwrap().canonical(), "JPY -10.5");
    assert_eq!(
        parse_value(cat, "USD 1,000.00").unwrap_err(),
        "amount must be a plain signed decimal"
    );

    let mut value_hash = DefaultHasher::new();
    value.hash(&mut value_hash);
    let mut logical_hash = DefaultHasher::new();
    "USD".hash(&mut logical_hash);
    rust_decimal::Decimal::new(12345, 2).hash(&mut logical_hash);
    assert_eq!(value_hash.finish(), logical_hash.finish());

    assert!(std::mem::size_of::<money_with_currency>() <= 32);

    let noncanonical = serde_cbor::to_vec(&(
        1_u8,
        "USD",
        rust_decimal::Decimal::new(12300, 4).mantissa().to_be_bytes(),
        4_u32,
    ))
    .unwrap();
    assert!(money_with_currency::from_cbor(cat, &noncanonical).is_err());

    let maximum = money_with_currency::from_decimal(cat, Decimal::max_value(), "USD").unwrap();
    let one = money_with_currency::from_decimal(cat, Decimal::one(), "USD").unwrap();
    assert_eq!(maximum.checked_add(one), Err(MoneyError::Overflow));
    assert_eq!(maximum.checked_div(Decimal::zero()), Err(MoneyError::DivisionByZero));

    let crypto = parse_value(cat, "BTC 1.00000001").unwrap();
    let encoded = crypto.to_cbor().unwrap();
    assert_eq!(money_with_currency::from_cbor(cat, &encoded).unwrap(), crypto);
}
