//! Currency metadata for introspection: one currency's details and the
//! listings of the ISO and crypto catalogs.
use crate::catalog::{Catalog, Currency, CurrencyKind, Locale};
use crate::model::{currency_found, currency_missing, find_currency, unknown_currency_message};
use vstd::prelude::*;

verus! {

pub open spec fn locale_name_spec(locale: Locale) -> Seq<char> {
    match locale {
        Locale::EnUs => "en-us"@,
        Locale::EnIn => "en-in"@,
        Locale::EnEu => "en-eu"@,
        Locale::EnBy => "en-by"@,
    }
}

/// The name of a locale, as rusty-money's locale formats name it.
pub fn locale_name(locale: Locale) -> (r: &'static str)
    ensures
        r@ == locale_name_spec(locale),
{
    match locale {
        Locale::EnUs => "en-us",
        Locale::EnIn => "en-in",
        Locale::EnEu => "en-eu",
        Locale::EnBy => "en-by",
    }
}

/// One row of the currency listing.
#[derive(Clone, Copy, Debug)]
pub struct CurrencyRow {
    pub code: &'static str,
    pub numeric_code: Option<&'static str>,
    pub exponent: u32,
    pub minor_units: u64,
    pub name: &'static str,
    pub symbol: &'static str,
    pub locale: &'static str,
    pub symbol_first: bool,
    pub kind: &'static str,
}

/// The row a currency is listed with.
pub open spec fn row_of(c: Currency, r: CurrencyRow) -> bool {
    &&& r.code == c.code
    &&& r.numeric_code == c.numeric_code
    &&& r.exponent == c.exponent
    &&& r.minor_units == c.minor_units
    &&& r.name == c.name
    &&& r.symbol == c.symbol
    &&& r.locale@ == locale_name_spec(c.locale)
    &&& r.symbol_first == c.symbol_first
    &&& r.kind@ == c.kind.name_spec()
}

/// A currency's metadata as one row.
pub fn currency_row(c: Currency) -> (r: CurrencyRow)
    ensures
        row_of(c, r),
{
    CurrencyRow {
        code: c.code,
        numeric_code: c.numeric_code,
        exponent: c.exponent,
        minor_units: c.minor_units,
        name: c.name,
        symbol: c.symbol,
        locale: locale_name(c.locale),
        symbol_first: c.symbol_first,
        kind: c.kind.as_str(),
    }
}

/// The metadata of the currency a code names (`money_currency_info`).
pub fn money_currency_info(catalog: &'static Catalog, currency: &str) -> (r: Result<CurrencyRow, String>)
    ensures
        r matches Ok(row) ==> exists|c: Currency|
            #![trigger currency_found(currency@, c)]
            currency_found(currency@, c) && row_of(c, row),
        r matches Err(e) ==> currency_missing(currency@) && e@ == unknown_currency_message(
            currency@,
        ),
{
    let c = find_currency(catalog, currency)?;
    Ok(currency_row(*c))
}

/// The currencies of one kind, in their order.
pub open spec fn of_kind(s: Seq<Currency>, kind: CurrencyKind) -> Seq<Currency> {
    s.filter(|x: Currency| x.kind == kind)
}

/// The rows of the catalog's currencies of one kind, in code order.
pub fn currency_rows(catalog: &'static Catalog, kind: CurrencyKind) -> (r: Vec<CurrencyRow>)
    ensures
        r@.len() == of_kind(catalog.entry_seq(), kind).len(),
        forall|i: int| 0 <= i < r@.len() ==> row_of(of_kind(catalog.entry_seq(), kind)[i], #[trigger] r@[i]),
{
    let all = catalog.currencies();
    let mut out: Vec<CurrencyRow> = Vec::new();
    let ghost mut chosen: Seq<Currency> = Seq::empty();
    let mut i: usize = 0;
    assert(of_kind(all@.take(0), kind) =~= Seq::<Currency>::empty());
    while i < all.len()
        invariant
            i <= all@.len(),
            all@ == catalog.entry_seq(),
            chosen == of_kind(all@.take(i as int), kind),
            out@.len() == chosen.len(),
            forall|j: int| 0 <= j < out@.len() ==> row_of(chosen[j], #[trigger] out@[j]),
        decreases all@.len() - i,
    {
        let c = all[i];
        let ghost prev = all@.take(i as int);
        proof {
            assert(prev.push(c) =~= all@.take(i + 1));
            prev.lemma_filter_push(c, |x: Currency| x.kind == kind);
        }
        if c.kind == kind {
            out.push(currency_row(c));
            proof {
                chosen = chosen.push(c);
            }
        }
        assert(chosen == of_kind(all@.take(i + 1), kind));
        i = i + 1;
    }
    assert(all@.take(all@.len() as int) =~= all@);
    out
}

/// The ISO currencies of the catalog (`money_currencies`).
pub fn money_currencies(catalog: &'static Catalog) -> (r: Vec<CurrencyRow>)
    ensures
        r@.len() == of_kind(catalog.entry_seq(), CurrencyKind::Iso).len(),
        forall|i: int|
            0 <= i < r@.len() ==> row_of(
                of_kind(catalog.entry_seq(), CurrencyKind::Iso)[i],
                #[trigger] r@[i],
            ),
{
    currency_rows(catalog, CurrencyKind::Iso)
}

/// The crypto currencies of the catalog (`money_crypto_currencies`).
pub fn money_crypto_currencies(catalog: &'static Catalog) -> (r: Vec<CurrencyRow>)
    ensures
        r@.len() == of_kind(catalog.entry_seq(), CurrencyKind::Crypto).len(),
        forall|i: int|
            0 <= i < r@.len() ==> row_of(
                of_kind(catalog.entry_seq(), CurrencyKind::Crypto)[i],
                #[trigger] r@[i],
            ),
{
    currency_rows(catalog, CurrencyKind::Crypto)
}

} // verus!
