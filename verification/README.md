# pg_money

A currency-aware money library: exact decimal amounts paired with an
ISO-4217 or crypto currency, the checked arithmetic, rounding, splitting,
allocation, exchange and formatting of rusty-money, a locale-independent
canonical text form (`USD 123.45`) and a CBOR storage form. The library in
`src/` is verified with Verus; `app/` is the PostgreSQL extension around it
(types, SQL functions, operators and aggregates through pgrx).

Layout of `src/`:

- `text`: characters, trimming, case and ordering of strings.
- `decimal`: decimals as a mantissa and a scale, their text, and the calls
  into rust_decimal.
- `catalog`: the currency catalog built from rusty-money's tables.
- `model`: `money_with_currency`, its canonical text and storage form.
- `binary`: big-endian bytes, CBOR framing of the storage tuples, hashing.
- `comparison`, `arithmetic`, `aggregate`, `exchange`, `formatting`,
  `currency`, `minor`, `api`: the operations of the SQL surface.
- `fuzz_api`: entry points for fuzzing the parsers and the decoder.

Main properties proved: the canonical text of every value parses back to
that value; the storage form of every value decodes back to it; equality and
the total order of values agree and are a total order; splits and
allocations add up to the amount floored to whole minor units; minor units
converted to a value and back are unchanged; a sum, difference or product
whose exact result has a decimal in the model (at most 96 bits of mantissa
and a scale of at most 28, once trailing zeros are stripped) is that exact
result, so subtracting what was added gives the value back whenever the sum
is exact; combining partial aggregate states gives the state of aggregating
the joined values, for runs that are each of one currency and whose running
totals each have a decimal in the model, so that every sum taken is exact;
every catalog holds the same currencies in the same order.

A value holds its amount's mantissa and scale and a reference to its
currency's entry in the catalog, which therefore lives as long as the
program (`app/` builds it once); a value takes 32 bytes.
