//! `money_with_currency`: a normalized decimal amount paired with a catalog
//! currency, its text form and its storage form.
use crate::catalog::{catalog_currency, known_currency, Catalog, Currency};
use crate::binary::{
    be_bytes_of, be_signed, bytes_result, cbor_decode_storage, cbor_encode_storage,
    cbor_storage_decoding, cbor_storage_encoding, cbor_storage_trailing, i128_of_be,
};
use crate::decimal::{
    checked_add, checked_div, checked_mul, checked_sub, common_scale, decimal_difference,
    decimal_from_parts, decimal_parse, decimal_parts_error, decimal_product, decimal_quotient,
    decimal_sum, decimal_text, denotes, difference_mantissa, difference_representable, fits_model,
    is_digit, law_normalize_depends_on_value, lemma_difference_undoes_sum, lemma_exact_normalized,
    normalized_difference, normalized_product, normalized_sum, padded_decimal_text,
    parse_decimal_text, plain_mantissa, plain_number, plain_scale, product_representable,
    representable, sum_mantissa, sum_representable, unsigned_part, zeros, Decimal, MAX_MANTISSA,
    MAX_SCALE,
};
use crate::errors::MoneyError;
use crate::text::{
    ascii_space, chars_of, is_ascii_char, is_ascii_space, push_all, spec_trim,
    trim_chars, upper_all, upper_chars,
};
use vstd::prelude::*;

verus! {

broadcast use vstd::string::group_string_axioms;

/// Version of the storage tuple.
pub const STORAGE_VERSION: u8 = 1u8;

/// Largest accepted binary payload.
pub const MAX_BINARY_BYTES: usize = 128usize;

/// Largest accepted text input.
pub const MAX_INPUT_BYTES: usize = 128usize;

/// A precise decimal amount paired with an ISO or crypto currency: the
/// amount's mantissa and scale, and a reference to the currency's entry in a
/// catalog that lives as long as the program, so that a value takes 32 bytes.
#[allow(non_camel_case_types)]
#[derive(Clone, Copy, Debug)]
pub struct money_with_currency {
    mantissa: i128,
    scale: u32,
    currency: &'static Currency,
}

impl money_with_currency {
    /// The amount: normalized and within the decimal model.
    pub closed spec fn amount_of(self) -> Decimal {
        Decimal { mantissa: self.mantissa, scale: self.scale }
    }

    /// The currency: one the catalog holds.
    pub closed spec fn currency_of(self) -> Currency {
        *self.currency
    }

    #[verifier::type_invariant]
    closed spec fn wf(self) -> bool {
        &&& self.amount_of().wf()
        &&& self.amount_of().is_normalized()
        &&& catalog_currency(*self.currency)
    }

    /// The amount, as stored.
    fn amount(&self) -> (r: Decimal)
        ensures
            r == self.amount_of(),
    {
        Decimal { mantissa: self.mantissa, scale: self.scale }
    }

    /// A value from an amount and a currency of the catalog; the amount is normalized.
    pub fn from_known_currency(amount: Decimal, currency: &'static Currency) -> (r: Self)
        requires
            amount.wf(),
            catalog_currency(*currency),
        ensures
            r.amount_of() == amount.normalized(),
            r.currency_of() == *currency,
            valid_value(r),
    {
        let n = amount.normalize();
        money_with_currency { mantissa: n.mantissa, scale: n.scale, currency }
    }

    /// A value from an amount and a currency code, looked up in the catalog.
    pub fn from_decimal(catalog: &'static Catalog, decimal: Decimal, currency: &str) -> (r: Result<
        Self,
        String,
    >)
        requires
            decimal.wf(),
        ensures
            r matches Ok(v) ==> v.amount_of() == decimal.normalized() && currency_found(
                currency@,
                v.currency_of(),
            ),
            r matches Err(e) ==> currency_missing(currency@) && e@ == unknown_currency_message(
                currency@,
            ),
    {
        let c = find_currency(catalog, currency)?;
        Ok(Self::from_known_currency(decimal, c))
    }

    /// The same currency with another amount.
    pub fn with_decimal(&self, amount: Decimal) -> (r: Self)
        requires
            amount.wf(),
        ensures
            r.amount_of() == amount.normalized(),
            r.currency_of() == self.currency_of(),
    {
        proof {
            use_type_invariant(self);
        }
        Self::from_known_currency(amount, self.currency)
    }

    /// Sum of two amounts of one currency.
    pub fn checked_add(self, other: Self) -> (r: Result<Self, MoneyError>)
        ensures
            r == binary_result(self, other, decimal_sum(self.amount_of(), other.amount_of())),
            same_currency(self, other) && sum_representable(self.amount_of(), other.amount_of())
                ==> r == Ok::<Self, MoneyError>(exact_money_sum(self, other)),
            same_currency(self, other) && self.amount_of().scale == 0 && other.amount_of().scale
                == 0 && !fits_model(self.amount_of().mantissa + other.amount_of().mantissa, 0) ==> r
                == Err::<Self, MoneyError>(MoneyError::Overflow),
    {
        proof {
            use_type_invariant(&self);
            use_type_invariant(&other);
        }
        self.require_same_currency(&other)?;
        match checked_add(self.amount(), other.amount()) {
            Some(amount) => {
                proof {
                    let (a, b) = (self.amount_of(), other.amount_of());
                    if sum_representable(a, b) {
                        lemma_exact_normalized(sum_mantissa(a, b), common_scale(a, b));
                        law_normalize_depends_on_value(amount, normalized_sum(a, b));
                    }
                }
                Ok(self.with_decimal(amount))
            },
            None => Err(MoneyError::Overflow),
        }
    }

    /// Difference of two amounts of one currency.
    pub fn checked_sub(self, other: Self) -> (r: Result<Self, MoneyError>)
        ensures
            r == binary_result(
                self,
                other,
                decimal_difference(self.amount_of(), other.amount_of()),
            ),
            same_currency(self, other) && difference_representable(
                self.amount_of(),
                other.amount_of(),
            ) ==> r == Ok::<Self, MoneyError>(exact_money_difference(self, other)),
            same_currency(self, other) && self.amount_of().scale == 0 && other.amount_of().scale
                == 0 && !fits_model(self.amount_of().mantissa - other.amount_of().mantissa, 0) ==> r
                == Err::<Self, MoneyError>(MoneyError::Overflow),
    {
        proof {
            use_type_invariant(&self);
            use_type_invariant(&other);
        }
        self.require_same_currency(&other)?;
        match checked_sub(self.amount(), other.amount()) {
            Some(amount) => {
                proof {
                    let (a, b) = (self.amount_of(), other.amount_of());
                    if difference_representable(a, b) {
                        lemma_exact_normalized(difference_mantissa(a, b), common_scale(a, b));
                        law_normalize_depends_on_value(amount, normalized_difference(a, b));
                    }
                }
                Ok(self.with_decimal(amount))
            },
            None => Err(MoneyError::Overflow),
        }
    }

    /// The amount times a decimal factor.
    pub fn checked_mul(self, multiplier: Decimal) -> (r: Result<Self, MoneyError>)
        requires
            multiplier.wf(),
        ensures
            r == scaled_result(self, decimal_product(self.amount_of(), multiplier)),
            product_representable(self.amount_of(), multiplier) ==> r == Ok::<Self, MoneyError>(
                exact_money_product(self, multiplier),
            ),
            self.amount_of().scale == 0 && multiplier.scale == 0 && !fits_model(
                self.amount_of().mantissa * multiplier.mantissa,
                0,
            ) ==> r == Err::<Self, MoneyError>(MoneyError::Overflow),
    {
        proof {
            use_type_invariant(&self);
        }
        match checked_mul(self.amount(), multiplier) {
            Some(amount) => {
                proof {
                    let a = self.amount_of();
                    if product_representable(a, multiplier) {
                        lemma_exact_normalized(
                            a.mantissa * multiplier.mantissa,
                            (a.scale + multiplier.scale) as nat,
                        );
                        law_normalize_depends_on_value(amount, normalized_product(a, multiplier));
                    }
                }
                Ok(self.with_decimal(amount))
            },
            None => Err(MoneyError::Overflow),
        }
    }

    /// The amount divided by a decimal divisor; a zero divisor is refused.
    pub fn checked_div(self, divisor: Decimal) -> (r: Result<Self, MoneyError>)
        requires
            divisor.wf(),
        ensures
            divisor.mantissa == 0 ==> r == Err::<Self, MoneyError>(MoneyError::DivisionByZero),
            divisor.mantissa != 0 ==> r == scaled_result(
                self,
                decimal_quotient(self.amount_of(), divisor),
            ),
    {
        proof {
            use_type_invariant(&self);
        }
        if divisor.is_zero() {
            return Err(MoneyError::DivisionByZero);
        }
        match checked_div(self.amount(), divisor) {
            Some(amount) => Ok(self.with_decimal(amount)),
            None => Err(MoneyError::Overflow),
        }
    }

    /// `Ok` when both values have the same currency, else the mismatch.
    pub fn require_same_currency(&self, other: &Self) -> (r: Result<(), MoneyError>)
        ensures
            same_currency(*self, *other) ==> r is Ok,
            !same_currency(*self, *other) ==> r == Err::<(), MoneyError>(
                MoneyError::CurrencyMismatch {
                    expected: self.currency_of().code,
                    actual: other.currency_of().code,
                },
            ),
    {
        let a = chars_of(self.currency.code);
        let b = chars_of(other.currency.code);
        if crate::text::compare_chars(&a, &b) == 0 {
            Ok(())
        } else {
            Err(
                MoneyError::CurrencyMismatch {
                    expected: self.currency.code,
                    actual: other.currency.code,
                },
            )
        }
    }

    /// The amount.
    pub fn decimal(&self) -> (r: Decimal)
        ensures
            r == self.amount_of(),
            r.wf(),
            r.is_normalized(),
            valid_value(*self),
    {
        proof {
            use_type_invariant(self);
        }
        self.amount()
    }

    /// The currency.
    pub fn currency_ref(&self) -> (r: &'static Currency)
        ensures
            *r == self.currency_of(),
            catalog_currency(*r),
    {
        proof {
            use_type_invariant(self);
        }
        self.currency
    }

    /// The currency's code.
    pub fn currency_code(&self) -> (r: &'static str)
        ensures
            r == self.currency_of().code,
    {
        self.currency.code
    }

    /// The amount's text with at least as many fractional digits as the
    /// currency's exponent: `decimal_text` padded with zeros.
    pub fn canonical_amount(&self) -> (r: String)
        ensures
            r@ == canonical_amount_text(self.amount_of(), self.currency_of().exponent as nat),
    {
        proof {
            use_type_invariant(self);
        }
        let mut out = self.amount().to_text();
        let exponent = self.currency.exponent;
        let scale = self.scale;
        if exponent > scale {
            if scale == 0 {
                out.push('.');
            }
            let ghost head = out@;
            let mut i: u32 = 0;
            while i < exponent - scale
                invariant
                    scale < exponent,
                    i <= exponent - scale,
                    out@ == head + zeros(i as nat),
                decreases exponent - scale - i,
            {
                out.push('0');
                i = i + 1;
                assert(out@ =~= head + zeros(i as nat));
            }
        }
        out
    }

    /// The canonical text `<CODE> <amount>`.
    ///
    /// The code is written in upper case.
    pub fn canonical(&self) -> (r: String)
        ensures
            r@ == canonical_text(*self),
            valid_value(*self),
            crate::catalog::is_code_shape(self.currency_of().code@),
    {
        proof {
            use_type_invariant(self);
            crate::catalog::lemma_known_code_shape(self.currency_of());
        }
        let mut out = String::new();
        push_all(&mut out, &chars_of(self.currency.code));
        out.push(' ');
        let amount = self.canonical_amount();
        push_all(&mut out, &chars_of(amount.as_str()));
        out
    }
}

/// Both values have the same currency code.
pub open spec fn same_currency(a: money_with_currency, b: money_with_currency) -> bool {
    a.currency_of().code@ == b.currency_of().code@
}

/// What a two-operand operation gives: the currency mismatch, an overflow
/// when rust_decimal gives no result, or the normalized result in the left
/// operand's currency.
pub open spec fn binary_result(
    a: money_with_currency,
    b: money_with_currency,
    outcome: Option<Decimal>,
) -> Result<money_with_currency, MoneyError> {
    if !same_currency(a, b) {
        Err(
            MoneyError::CurrencyMismatch {
                expected: a.currency_of().code,
                actual: b.currency_of().code,
            },
        )
    } else {
        scaled_result(a, outcome)
    }
}

/// An overflow when rust_decimal gives no result, else the normalized result
/// in `a`'s currency.
pub open spec fn scaled_result(a: money_with_currency, outcome: Option<Decimal>) -> Result<
    money_with_currency,
    MoneyError,
> {
    match outcome {
        None => Err(MoneyError::Overflow),
        Some(d) => Ok(money_with(a.currency_of(), d.normalized())),
    }
}

/// The value with this currency and amount.
pub closed spec fn money_with(c: Currency, amount: Decimal) -> money_with_currency {
    money_with_currency { mantissa: amount.mantissa, scale: amount.scale, currency: &c }
}

pub proof fn lemma_money_with(c: Currency, amount: Decimal)
    ensures
        money_with(c, amount).currency_of() == c,
        money_with(c, amount).amount_of() == amount,
{
}

/// A value is the value with its own currency and amount.
pub proof fn lemma_money_with_parts(v: money_with_currency)
    ensures
        money_with(v.currency_of(), v.amount_of()) == v,
{
}

/// The exact sum of two amounts, normalized, in `a`'s currency.
pub open spec fn exact_money_sum(a: money_with_currency, b: money_with_currency) -> money_with_currency {
    money_with(a.currency_of(), normalized_sum(a.amount_of(), b.amount_of()))
}

/// The exact difference of two amounts, normalized, in `a`'s currency.
pub open spec fn exact_money_difference(
    a: money_with_currency,
    b: money_with_currency,
) -> money_with_currency {
    money_with(a.currency_of(), normalized_difference(a.amount_of(), b.amount_of()))
}

/// The exact product of the amount and a factor, normalized, in `a`'s currency.
pub open spec fn exact_money_product(a: money_with_currency, k: Decimal) -> money_with_currency {
    money_with(a.currency_of(), normalized_product(a.amount_of(), k))
}

/// Subtracting what was added gives the first value back. For two values of
/// one currency whose exact sum has a decimal in the model, `checked_add`
/// gives `exact_money_sum`, the exact difference of that sum and the second
/// value has a decimal in the model too, so `checked_sub` gives
/// `exact_money_difference`, and that is the first value.
pub proof fn law_subtract_undoes_add(x: money_with_currency, y: money_with_currency)
    requires
        valid_value(x),
        valid_value(y),
        same_currency(x, y),
        sum_representable(x.amount_of(), y.amount_of()),
    ensures
        same_currency(exact_money_sum(x, y), y),
        difference_representable(exact_money_sum(x, y).amount_of(), y.amount_of()),
        exact_money_difference(exact_money_sum(x, y), y) == x,
{
    lemma_difference_undoes_sum(x.amount_of(), y.amount_of());
    let s = exact_money_sum(x, y);
    lemma_money_with(x.currency_of(), normalized_sum(x.amount_of(), y.amount_of()));
    assert(s.currency_of() == x.currency_of());
    assert(exact_money_difference(s, y) == money_with(x.currency_of(), x.amount_of()));
    lemma_money_with_parts(x);
}

/// `parse_value` describes at most one value for an input.
pub proof fn lemma_parsed_value_unique(input: Seq<char>, a: money_with_currency, b: money_with_currency)
    requires
        parsed_value(input, a),
        parsed_value(input, b),
    ensures
        a == b,
{
    lemma_money_eq(a, b);
}

/// The amount's text padded with zeros to at least `exponent` fractional digits.
pub open spec fn canonical_amount_text(amount: Decimal, exponent: nat) -> Seq<char> {
    if exponent > amount.scale {
        padded_decimal_text(amount, (exponent - amount.scale) as nat)
    } else {
        decimal_text(amount)
    }
}

pub open spec fn canonical_text(v: money_with_currency) -> Seq<char> {
    v.currency_of().code@ + seq![' '] + canonical_amount_text(
        v.amount_of(),
        v.currency_of().exponent as nat,
    )
}


/// Trimmed and upper-cased: the code a currency input names.
pub open spec fn currency_key(input: Seq<char>) -> Seq<char> {
    upper_all(spec_trim(input))
}

/// Three or four ASCII characters once trimmed.
pub open spec fn key_shape_ok(input: Seq<char>) -> bool {
    let t = spec_trim(input);
    &&& 3 <= t.len() <= 4
    &&& forall|i: int| 0 <= i < t.len() ==> is_ascii_char(#[trigger] t[i])
}

/// `c` is the catalog's currency for `input`, and the only one with its code.
pub open spec fn currency_found(input: Seq<char>, c: Currency) -> bool {
    &&& key_shape_ok(input)
    &&& catalog_currency(c)
    &&& c.code@ == currency_key(input)
}

/// No currency of the catalog is named by `input`.
pub open spec fn currency_missing(input: Seq<char>) -> bool {
    !key_shape_ok(input) || forall|c: Currency| known_currency(c) ==> c.code@ != currency_key(
        input,
    )
}

pub open spec fn unknown_currency_message(input: Seq<char>) -> Seq<char> {
    "unknown currency: "@ + currency_key(input)
}

fn all_ascii(s: &[char]) -> (r: bool)
    ensures
        r == forall|i: int| 0 <= i < s@.len() ==> is_ascii_char(#[trigger] s@[i]),
{
    let mut i: usize = 0;
    while i < s.len()
        invariant
            i <= s@.len(),
            forall|j: int| 0 <= j < i ==> is_ascii_char(#[trigger] s@[j]),
        decreases s@.len() - i,
    {
        if (s[i] as u32) >= 128 {
            return false;
        }
        i = i + 1;
    }
    true
}

/// The catalog currency a code names: surrounding white space is ignored and
/// letters are upper-cased; three or four ASCII characters are required.
pub fn find_currency_chars(catalog: &'static Catalog, input: &[char]) -> (r: Result<
    &'static Currency,
    String,
>)
    ensures
        r matches Ok(c) ==> currency_found(input@, *c),
        r matches Err(e) ==> currency_missing(input@) && e@ == unknown_currency_message(input@),
{
    let t = trim_chars(input);
    let up = upper_chars(&t);
    if 3 <= t.len() && t.len() <= 4 && all_ascii(&t) {
        match catalog.find(&up) {
            Some(c) => {
                return Ok(c);
            },
            None => {},
        }
    }
    let mut msg = "unknown currency: ".to_string();
    push_all(&mut msg, &up);
    Err(msg)
}

/// The catalog currency a code names (see `find_currency_chars`).
pub fn find_currency(catalog: &'static Catalog, input: &str) -> (r: Result<
    &'static Currency,
    String,
>)
    ensures
        r matches Ok(c) ==> currency_found(input@, *c),
        r matches Err(e) ==> currency_missing(input@) && e@ == unknown_currency_message(input@),
{
    find_currency_chars(catalog, &chars_of(input))
}

/// What `parse_decimal` gives: the empty text, a text outside the plain
/// signed form, a number rust_decimal cannot hold, or its parse.
pub open spec fn parse_decimal_spec(s: Seq<char>) -> Result<Decimal, Seq<char>> {
    if s.len() == 0 {
        Err("amount is empty"@)
    } else if !plain_number(s) {
        Err("amount must be a plain signed decimal"@)
    } else {
        match decimal_parse(s) {
            Some(d) => Ok(d),
            None => Err("amount exceeds decimal precision"@),
        }
    }
}

pub open spec fn text_result<T>(r: Result<T, String>) -> Result<T, Seq<char>> {
    match r {
        Ok(v) => Ok(v),
        Err(e) => Err(e@),
    }
}

/// Parses a plain signed decimal (see `parse_decimal_spec`).
#[verifier::rlimit(50)]
pub fn parse_decimal_chars(input: &[char]) -> (r: Result<Decimal, String>)
    ensures
        text_result(r) == parse_decimal_spec(input@),
        r matches Ok(d) ==> d.wf(),
        plain_number(input@) && representable(input@) ==> r is Ok && denotes(r->Ok_0, input@),
        plain_number(input@) && crate::decimal::digits_value(unsigned_part(input@)) <= MAX_MANTISSA
            && plain_scale(input@) <= MAX_SCALE ==> r is Ok && r->Ok_0 == (Decimal {
            mantissa: plain_mantissa(input@) as i128,
            scale: plain_scale(input@) as u32,
        }),
        plain_number(input@) && crate::decimal::digits_value(
            crate::decimal::before_point(unsigned_part(input@)),
        ) > MAX_MANTISSA ==> (r matches Err(e) && e@ == "amount exceeds decimal precision"@),
{
    let s = input;
    if s.len() == 0 {
        return Err("amount is empty".to_string());
    }
    let start: usize = if s[0] == '+' || s[0] == '-' {
        1
    } else {
        0
    };
    let ghost u = crate::decimal::unsigned_part(s@);
    assert(u == s@.skip(start as int));
    let mut has_digit = false;
    let mut has_point = false;
    let mut i: usize = start;
    while i < s.len()
        invariant
            start <= i <= s@.len(),
            u == s@.skip(start as int),
            u == crate::decimal::unsigned_part(s@),
            s@ == input@,
            forall|j: int| 0 <= j < i - start ==> crate::decimal::is_digit(#[trigger] u[j]) || u[j] == '.',
            forall|j: int, k: int| 0 <= j < k < i - start && #[trigger] u[j] == '.' ==> #[trigger] u[k] != '.',
            has_point <==> exists|j: int| 0 <= j < i - start && #[trigger] u[j] == '.',
            has_digit <==> exists|j: int| 0 <= j < i - start && crate::decimal::is_digit(#[trigger] u[j]),
        decreases s@.len() - i,
    {
        let c = s[i];
        assert(u[i - start] == c);
        if '0' <= c && c <= '9' {
            has_digit = true;
        } else if c == '.' && !has_point {
            has_point = true;
        } else {
            proof {
                if c == '.' {
                    let j = choose|j: int| 0 <= j < i - start && #[trigger] u[j] == '.';
                    assert(u[j] == '.' && u[i - start] == '.');
                }
                assert(!crate::decimal::is_digit(u[i - start]));
                assert(!crate::decimal::plain_body(u));
                assert(!plain_number(s@));
            }
            return Err("amount must be a plain signed decimal".to_string());
        }
        i = i + 1;
    }
    if !has_digit {
        assert(!crate::decimal::plain_body(u));
        return Err("amount must be a plain signed decimal".to_string());
    }
    assert(crate::decimal::plain_body(u));
    match parse_decimal_text(input) {
        Some(d) => Ok(d),
        None => Err("amount exceeds decimal precision".to_string()),
    }
}

/// Parses a plain signed decimal (see `parse_decimal_spec`).
pub fn parse_decimal(input: &str) -> (r: Result<Decimal, String>)
    ensures
        text_result(r) == parse_decimal_spec(input@),
        r matches Ok(d) ==> d.wf(),
        plain_number(input@) && representable(input@) ==> r is Ok && denotes(r->Ok_0, input@),
        plain_number(input@) && crate::decimal::digits_value(unsigned_part(input@)) <= MAX_MANTISSA
            && plain_scale(input@) <= MAX_SCALE ==> r is Ok && r->Ok_0 == (Decimal {
            mantissa: plain_mantissa(input@) as i128,
            scale: plain_scale(input@) as u32,
        }),
        plain_number(input@) && crate::decimal::digits_value(
            crate::decimal::before_point(unsigned_part(input@)),
        ) > MAX_MANTISSA ==> (r matches Err(e) && e@ == "amount exceeds decimal precision"@),
{
    parse_decimal_chars(&chars_of(input))
}


/// Splitting at ASCII white space, dropping empty pieces, as
/// `str::split_ascii_whitespace` does; `cur` is the piece being read.
pub open spec fn split_tokens(s: Seq<char>, cur: Seq<char>) -> Seq<Seq<char>>
    decreases s.len(),
{
    if s.len() == 0 {
        if cur.len() > 0 {
            seq![cur]
        } else {
            Seq::empty()
        }
    } else if is_ascii_space(s[0]) {
        if cur.len() > 0 {
            seq![cur] + split_tokens(s.drop_first(), Seq::empty())
        } else {
            split_tokens(s.drop_first(), Seq::empty())
        }
    } else {
        split_tokens(s.drop_first(), cur.push(s[0]))
    }
}

pub open spec fn tokens(s: Seq<char>) -> Seq<Seq<char>> {
    split_tokens(s, Seq::empty())
}

pub open spec fn views(v: Seq<Vec<char>>) -> Seq<Seq<char>> {
    v.map_values(|x: Vec<char>| x@)
}

/// The white-space separated pieces of `s`.
pub fn tokenize(s: &[char]) -> (r: Vec<Vec<char>>)
    ensures
        views(r@) == tokens(s@),
{
    let mut out: Vec<Vec<char>> = Vec::new();
    let mut cur: Vec<char> = Vec::new();
    let mut i: usize = 0;
    assert(s@.skip(0) == s@);
    while i < s.len()
        invariant
            i <= s@.len(),
            tokens(s@) == views(out@) + split_tokens(s@.skip(i as int), cur@),
        decreases s@.len() - i,
    {
        let c = s[i];
        assert(s@.skip(i as int)[0] == c);
        assert(s@.skip(i as int).drop_first() == s@.skip(i + 1));
        let ghost rest = s@.skip(i + 1);
        if ascii_space(c) {
            if cur.len() > 0 {
                let ghost before = views(out@);
                let ghost old_cur = cur@;
                assert(split_tokens(s@.skip(i as int), old_cur) == seq![old_cur] + split_tokens(
                    rest,
                    Seq::empty(),
                ));
                out.push(cur);
                assert(views(out@) =~= before.push(old_cur));
                cur = Vec::new();
                assert(cur@ == Seq::<char>::empty());
                assert(before + (seq![old_cur] + split_tokens(rest, Seq::empty())) =~= before.push(
                    old_cur,
                ) + split_tokens(rest, Seq::empty()));
            } else {
                assert(split_tokens(s@.skip(i as int), cur@) == split_tokens(rest, Seq::empty()));
                assert(cur@ =~= Seq::<char>::empty());
            }
        } else {
            let ghost old_cur = cur@;
            assert(split_tokens(s@.skip(i as int), old_cur) == split_tokens(rest, old_cur.push(c)));
            cur.push(c);
        }
        i = i + 1;
    }
    if cur.len() > 0 {
        let ghost before = views(out@);
        out.push(cur);
        assert(views(out@) == before.push(cur@));
    }
    assert(views(out@) =~= tokens(s@));
    out
}

/// Length of the UTF-8 encoding of `s`, or 5 when it is longer than 4 bytes.
fn utf8_len_upto_five(s: &[char]) -> (r: usize)
    ensures
        r == if vstd::utf8::encode_utf8(s@).len() <= 4 {
            vstd::utf8::encode_utf8(s@).len() as usize
        } else {
            5
        },
{
    let mut total: usize = 0;
    let mut i: usize = s.len();
    assert(s@.skip(s@.len() as int) == Seq::<char>::empty());
    while i > 0
        invariant
            i <= s@.len(),
            total <= 4,
            total == vstd::utf8::encode_utf8(s@.skip(i as int)).len(),
        decreases i,
    {
        let c = s[i - 1];
        let u = c as u32;
        proof {
            vstd::utf8::char_is_scalar(c);
        }
        let w: usize = if u <= 0x7F {
            1
        } else if u <= 0x7FF {
            2
        } else if u <= 0xFFFF {
            3
        } else {
            4
        };
        assert(s@.skip(i - 1).drop_first() == s@.skip(i as int));
        assert(s@.skip(i - 1)[0] == c);
        assert(vstd::utf8::encode_scalar(c as u32).len() == w);
        if total + w > 4 {
            proof {
                lemma_encode_len_suffix(s@, i - 1);
            }
            return 5;
        }
        total = total + w;
        i = i - 1;
    }
    assert(s@.skip(0) == s@);
    total
}

proof fn lemma_encode_len_suffix(s: Seq<char>, i: int)
    requires
        0 <= i <= s.len(),
    ensures
        vstd::utf8::encode_utf8(s).len() >= vstd::utf8::encode_utf8(s.skip(i)).len(),
    decreases i,
{
    if i > 0 {
        assert(s.drop_first().skip(i - 1) == s.skip(i));
        lemma_encode_len_suffix(s.drop_first(), i - 1);
    } else {
        assert(s.skip(0) == s);
    }
}

pub fn contains_nul(input: &str) -> (r: bool)
    ensures
        r == vstd::utf8::encode_utf8(input@).contains(0u8),
{
    let bytes = input.as_bytes();
    let mut i: usize = 0;
    while i < bytes.len()
        invariant
            i <= bytes@.len(),
            bytes@ == vstd::utf8::encode_utf8(input@),
            forall|j: int| 0 <= j < i ==> bytes@[j] != 0u8,
        decreases bytes@.len() - i,
    {
        if bytes[i] == 0 {
            assert(bytes@[i as int] == 0u8);
            return true;
        }
        i = i + 1;
    }
    false
}

/// `<currency> <amount>`: two pieces, the first of 3 or 4 bytes.
pub open spec fn value_pieces_ok(t: Seq<Seq<char>>) -> bool {
    &&& t.len() == 2
    &&& 3 <= vstd::utf8::encode_utf8(t[0]).len() <= 4
}

/// The error `parse_value` reports, if any.
pub open spec fn parse_value_error(input: Seq<char>) -> Option<Seq<char>> {
    let b = vstd::utf8::encode_utf8(input);
    let t = tokens(input);
    if b.len() > 128 {
        Some("input exceeds 128 bytes"@)
    } else if b.contains(0u8) {
        Some("input contains a NUL byte"@)
    } else if !value_pieces_ok(t) {
        Some("expected '<currency> <amount>'"@)
    } else {
        match parse_decimal_spec(t[1]) {
            Err(e) => Some(e),
            Ok(d) => if currency_missing(t[0]) {
                Some(unknown_currency_message(t[0]))
            } else {
                None
            },
        }
    }
}

/// The value `parse_value` gives when it succeeds: the normalized amount of
/// the second piece in the currency the first piece names.
pub open spec fn parsed_value(input: Seq<char>, v: money_with_currency) -> bool {
    let t = tokens(input);
    &&& parse_decimal_spec(t[1]) is Ok
    &&& v.amount_of() == parse_decimal_spec(t[1])->Ok_0.normalized()
    &&& currency_found(t[0], v.currency_of())
}

/// What every `money_with_currency` satisfies: a normalized amount within the
/// decimal model and a currency of the catalog, the only one with its code.
pub open spec fn valid_value(v: money_with_currency) -> bool {
    &&& v.amount_of().wf()
    &&& v.amount_of().is_normalized()
    &&& catalog_currency(v.currency_of())
}

/// Characters that encode as one nonzero byte.
pub open spec fn plain_ascii(s: Seq<char>) -> bool {
    forall|i: int| 0 <= i < s.len() ==> 0 < (#[trigger] s[i] as u32) < 128
}

proof fn lemma_ascii_encode(s: Seq<char>)
    requires
        plain_ascii(s),
    ensures
        vstd::utf8::encode_utf8(s).len() == s.len(),
        !vstd::utf8::encode_utf8(s).contains(0u8),
    decreases s.len(),
{
    if s.len() > 0 {
        let rest = s.drop_first();
        assert(plain_ascii(rest)) by {
            assert forall|i: int| 0 <= i < rest.len() implies 0 < (#[trigger] rest[i] as u32)
                < 128 by {
                assert(rest[i] == s[i + 1]);
            }
        }
        lemma_ascii_encode(rest);
        let u = s[0] as u32;
        assert(0 < u < 128);
        let b = vstd::utf8::encode_scalar(u);
        assert(vstd::utf8::has_width_1_encoding(u));
        assert(b == seq![vstd::utf8::leading_byte_width_1(u)]);
        assert((u & 0x7F) as u8 != 0) by (bit_vector)
            requires
                0 < u < 128,
        ;
        let e = vstd::utf8::encode_utf8(s);
        assert(e == b + vstd::utf8::encode_utf8(rest));
        vstd::seq_lib::lemma_seq_concat_contains_all_elements(b, vstd::utf8::encode_utf8(rest), 0u8);
        assert(!b.contains(0u8)) by {
            if b.contains(0u8) {
                let j = choose|j: int| 0 <= j < b.len() && b[j] == 0u8;
                assert(j == 0);
            }
        }
    }
}

pub open spec fn no_ascii_space(s: Seq<char>) -> bool {
    forall|i: int| 0 <= i < s.len() ==> !is_ascii_space(#[trigger] s[i])
}

proof fn lemma_split_no_space(s: Seq<char>, cur: Seq<char>)
    requires
        no_ascii_space(s),
    ensures
        split_tokens(s, cur) == if (cur + s).len() > 0 {
            seq![cur + s]
        } else {
            Seq::<Seq<char>>::empty()
        },
    decreases s.len(),
{
    if s.len() == 0 {
        assert(cur + s =~= cur);
    } else {
        let rest = s.drop_first();
        assert(no_ascii_space(rest)) by {
            assert forall|i: int| 0 <= i < rest.len() implies !is_ascii_space(#[trigger] rest[i]) by {
                assert(rest[i] == s[i + 1]);
            }
        }
        assert(!is_ascii_space(s[0]));
        lemma_split_no_space(rest, cur.push(s[0]));
        assert(cur.push(s[0]) + rest =~= cur + s);
    }
}

proof fn lemma_split_prefix(a: Seq<char>, b: Seq<char>, cur: Seq<char>)
    requires
        no_ascii_space(a),
    ensures
        split_tokens(a + b, cur) == split_tokens(b, cur + a),
    decreases a.len(),
{
    if a.len() == 0 {
        assert(a + b =~= b);
        assert(cur + a =~= cur);
    } else {
        let rest = a.drop_first();
        assert(no_ascii_space(rest)) by {
            assert forall|i: int| 0 <= i < rest.len() implies !is_ascii_space(#[trigger] rest[i]) by {
                assert(rest[i] == a[i + 1]);
            }
        }
        assert((a + b)[0] == a[0]);
        assert(!is_ascii_space(a[0]));
        assert((a + b).drop_first() =~= rest + b);
        lemma_split_prefix(rest, b, cur.push(a[0]));
        assert(cur.push(a[0]) + rest =~= cur + a);
    }
}

/// `code amount` splits into its two pieces.
proof fn lemma_two_tokens(code: Seq<char>, amount: Seq<char>)
    requires
        code.len() > 0,
        amount.len() > 0,
        no_ascii_space(code),
        no_ascii_space(amount),
    ensures
        tokens(code + seq![' '] + amount) == seq![code, amount],
{
    let text = code + seq![' '] + amount;
    assert(text =~= code + (seq![' '] + amount));
    lemma_split_prefix(code, seq![' '] + amount, Seq::empty());
    assert(Seq::<char>::empty() + code =~= code);
    let b = seq![' '] + amount;
    assert(b[0] == ' ');
    assert(b.drop_first() =~= amount);
    lemma_split_no_space(amount, Seq::empty());
    assert(Seq::<char>::empty() + amount =~= amount);
    assert(seq![code] + seq![amount] =~= seq![code, amount]);
}

/// Text without white space is its own trim.
proof fn lemma_trim_no_space(s: Seq<char>)
    requires
        forall|i: int| 0 <= i < s.len() ==> !crate::text::is_white_space(#[trigger] s[i]),
    ensures
        spec_trim(s) == s,
{
    assert(crate::text::leading_space(s) == 0);
    assert(s.skip(0) =~= s);
    assert(crate::text::trailing_space(s) == 0) by {
        if s.len() > 0 {
            assert(!crate::text::is_white_space(s[s.len() - 1]));
        }
    }
    assert(s.take(s.len() as int) =~= s);
}

/// A catalog code names its own currency: it is its own trimmed, upper-cased
/// key, of three or four ASCII characters.
pub proof fn lemma_code_is_key(c: Currency)
    requires
        known_currency(c),
    ensures
        key_shape_ok(c.code@),
        currency_key(c.code@) == c.code@,
        plain_ascii(c.code@),
        no_ascii_space(c.code@),
        !currency_missing(c.code@),
        !has_lower(c.code@),
{
    let k = c.code@;
    crate::catalog::lemma_known_code_shape(c);
    assert forall|i: int| 0 <= i < k.len() implies !crate::text::is_white_space(#[trigger] k[i]) by {
        assert(crate::catalog::is_upper_letter(k[i]));
    }
    lemma_trim_no_space(k);
    assert(upper_all(k) =~= k) by {
        assert forall|i: int| 0 <= i < k.len() implies #[trigger] upper_all(k)[i] == k[i] by {
            assert(crate::catalog::is_upper_letter(k[i]));
        }
    }
    assert forall|i: int| 0 <= i < k.len() implies 0 < (#[trigger] k[i] as u32) < 128 by {
        assert(crate::catalog::is_upper_letter(k[i]));
    }
    assert forall|i: int| 0 <= i < k.len() implies !is_ascii_space(#[trigger] k[i]) by {
        assert(crate::catalog::is_upper_letter(k[i]));
    }
    assert(!has_lower(k)) by {
        if has_lower(k) {
            let i = choose|i: int| 0 <= i < k.len() && crate::text::is_lower_ascii(#[trigger] k[i]);
            assert(crate::catalog::is_upper_letter(k[i]));
        }
    }
}

/// The canonical text of a valid value reads back as its two pieces, and its
/// amount piece is a plain number with the value's exact amount.
proof fn lemma_canonical_text(v: money_with_currency)
    requires
        valid_value(v),
    ensures
        vstd::utf8::encode_utf8(canonical_text(v)).len() <= 128,
        !vstd::utf8::encode_utf8(canonical_text(v)).contains(0u8),
        tokens(canonical_text(v)) == seq![
            v.currency_of().code@,
            canonical_amount_text(v.amount_of(), v.currency_of().exponent as nat),
        ],
        value_pieces_ok(tokens(canonical_text(v))),
        plain_number(canonical_amount_text(v.amount_of(), v.currency_of().exponent as nat)),
        denotes(v.amount_of(), canonical_amount_text(v.amount_of(), v.currency_of().exponent as nat)),
        representable(canonical_amount_text(v.amount_of(), v.currency_of().exponent as nat)),
        !currency_missing(v.currency_of().code@),
        currency_key(v.currency_of().code@) == v.currency_of().code@,
{
    let c = v.currency_of();
    let d = v.amount_of();
    let exp = c.exponent as nat;
    let a = canonical_amount_text(d, exp);
    let code = c.code@;
    lemma_code_is_key(c);
    crate::catalog::lemma_known_code_shape(c);
    // the amount piece
    crate::decimal::lemma_decimal_text(d);
    if exp > d.scale {
        let k = (exp - d.scale) as nat;
        crate::decimal::lemma_padded_decimal_text(d, k);
        crate::decimal::lemma_pow10_add(d.scale as nat, k);
        assert(crate::decimal::plain_scale(a) == exp);
        assert((d.scale as nat + k) as nat == exp);
        let pe = crate::decimal::pow10(exp);
        let ps = crate::decimal::pow10(d.scale as nat);
        let pk = crate::decimal::pow10(k);
        assert(pe == ps * pk);
        assert(d.mantissa * pe == (d.mantissa * pk) * ps) by (nonlinear_arith)
            requires
                pe == ps * pk,
        ;
    }
    assert(denotes(d, a));
    assert(representable(a));
    assert(a.len() <= 61);
    assert(a.len() > 0);
    assert forall|i: int| 0 <= i < a.len() implies is_digit(#[trigger] a[i]) || a[i] == '.' || a[i]
        == '-' by {
    }
    assert(plain_ascii(a)) by {
        assert forall|i: int| 0 <= i < a.len() implies 0 < (#[trigger] a[i] as u32) < 128 by {
            assert(is_digit(a[i]) || a[i] == '.' || a[i] == '-');
        }
    }
    assert(no_ascii_space(a)) by {
        assert forall|i: int| 0 <= i < a.len() implies !is_ascii_space(#[trigger] a[i]) by {
            assert(is_digit(a[i]) || a[i] == '.' || a[i] == '-');
        }
    }
    // the whole text
    let text = canonical_text(v);
    assert(text == code + seq![' '] + a);
    lemma_two_tokens(code, a);
    assert(plain_ascii(text)) by {
        assert forall|i: int| 0 <= i < text.len() implies 0 < (#[trigger] text[i] as u32) < 128 by {
            if i < code.len() {
                assert(text[i] == code[i]);
            } else if i == code.len() {
                assert(text[i] == ' ');
            } else {
                assert(text[i] == a[i - code.len() - 1]);
            }
        }
    }
    lemma_ascii_encode(text);
    lemma_ascii_encode(code);
}

/// Parses the canonical, locale-independent text `<currency> <amount>`.
///
/// The canonical text of every value parses back to that value.
pub fn parse_value(catalog: &'static Catalog, input: &str) -> (r: Result<money_with_currency, String>)
    ensures
        r matches Err(e) ==> parse_value_error(input@) == Some(e@),
        r matches Ok(v) ==> parse_value_error(input@) is None && parsed_value(input@, v),
        parse_value_error(input@) is None ==> r is Ok,
        forall|v: money_with_currency|
            valid_value(v) && #[trigger] canonical_text(v) == input@ ==> r is Ok && r->Ok_0 == v,
{
    if input.as_bytes().len() > MAX_INPUT_BYTES {
        proof {
            lemma_no_canonical_match(input@);
        }
        return Err("input exceeds 128 bytes".to_string());
    }
    if contains_nul(input) {
        proof {
            lemma_no_canonical_match(input@);
        }
        return Err("input contains a NUL byte".to_string());
    }
    let chars = chars_of(input);
    let parts = tokenize(&chars);
    assert(views(parts@).len() == parts@.len());
    if parts.len() < 2 {
        proof {
            lemma_no_canonical_match(input@);
        }
        return Err("expected '<currency> <amount>'".to_string());
    }
    assert(views(parts@)[0] == parts@[0]@);
    assert(views(parts@)[1] == parts@[1]@);
    let width = utf8_len_upto_five(&parts[0]);
    if parts.len() > 2 || !(3 <= width && width <= 4) {
        proof {
            lemma_no_canonical_match(input@);
        }
        return Err("expected '<currency> <amount>'".to_string());
    }
    let amount = match parse_decimal_chars(&parts[1]) {
        Ok(d) => d,
        Err(e) => {
            proof {
                assert forall|v: money_with_currency|
                    valid_value(v) implies #[trigger] canonical_text(v) != input@ by {
                    lemma_canonical_text(v);
                }
            }
            return Err(e);
        },
    };
    let currency = match find_currency_chars(catalog, &parts[0]) {
        Ok(c) => c,
        Err(e) => {
            proof {
                assert forall|v: money_with_currency|
                    valid_value(v) implies #[trigger] canonical_text(v) != input@ by {
                    lemma_canonical_text(v);
                }
            }
            return Err(e);
        },
    };
    let r = money_with_currency::from_known_currency(amount, currency);
    proof {
        assert forall|v: money_with_currency|
            valid_value(v) && #[trigger] canonical_text(v) == input@ implies r == v by {
            lemma_canonical_text(v);
            let a = canonical_amount_text(v.amount_of(), v.currency_of().exponent as nat);
            assert(parts@[1]@ == a);
            assert(parts@[0]@ == v.currency_of().code@);
            crate::decimal::lemma_denotes_same_value(amount, v.amount_of(), a);
            crate::decimal::lemma_normalize(amount.mantissa as int, amount.scale as nat);
            let n = amount.normalized();
            assert(n.same_value(amount));
            crate::decimal::lemma_same_value_trans(n, amount, v.amount_of());
            crate::decimal::lemma_normalized_unique(n, v.amount_of());
            assert(currency == v.currency_of());
            lemma_money_eq(r, v);
        }
    }
    Ok(r)
}

/// No valid value has a canonical text that `parse_value` refuses before
/// reading its pieces.
proof fn lemma_no_canonical_match(input: Seq<char>)
    requires
        vstd::utf8::encode_utf8(input).len() > 128 || vstd::utf8::encode_utf8(input).contains(0u8)
            || !value_pieces_ok(tokens(input)),
    ensures
        forall|v: money_with_currency| valid_value(v) ==> #[trigger] canonical_text(v) != input,
{
    assert forall|v: money_with_currency| valid_value(v) implies #[trigger] canonical_text(v)
        != input by {
        lemma_canonical_text(v);
    }
}

/// Values with the same amount and currency are the same value.
pub proof fn lemma_money_eq(a: money_with_currency, b: money_with_currency)
    requires
        a.amount_of() == b.amount_of(),
        a.currency_of() == b.currency_of(),
    ensures
        a == b,
{
}



pub open spec fn has_lower(s: Seq<char>) -> bool {
    exists|i: int| 0 <= i < s.len() && crate::text::is_lower_ascii(#[trigger] s[i])
}

/// The amount the storage parts describe.
pub open spec fn stored_amount(bytes: Seq<u8>, scale: u32) -> Decimal {
    Decimal { mantissa: be_signed(bytes) as i128, scale }
}

/// The error decoding the storage parts gives, if any: an unknown version,
/// parts rust_decimal refuses, a non-normalized amount, a currency with
/// lower-case letters, an unknown currency, or a currency code that is not
/// exactly the catalog's code (white space around it).
pub open spec fn storage_error(version: u8, code: Seq<char>, bytes: Seq<u8>, scale: u32) -> Option<
    Seq<char>,
> {
    let m = be_signed(bytes);
    if version != STORAGE_VERSION {
        Some(
            "unsupported money storage version "@ + decimal_text(
                Decimal { mantissa: version as i128, scale: 0 },
            ),
        )
    } else if !(scale <= MAX_SCALE && -MAX_MANTISSA <= m <= MAX_MANTISSA) {
        Some(decimal_parts_error(m as i128, scale))
    } else if !stored_amount(bytes, scale).is_normalized() {
        Some("money amount is not canonically encoded"@)
    } else if has_lower(code) {
        Some("money currency is not canonically encoded"@)
    } else if currency_missing(code) {
        Some(unknown_currency_message(code))
    } else if currency_key(code) != code {
        Some("money currency is not canonically encoded"@)
    } else {
        None
    }
}

pub fn contains_lower(s: &[char]) -> (r: bool)
    ensures
        r == has_lower(s@),
{
    let mut i: usize = 0;
    while i < s.len()
        invariant
            i <= s@.len(),
            forall|j: int| 0 <= j < i ==> !crate::text::is_lower_ascii(#[trigger] s@[j]),
        decreases s@.len() - i,
    {
        if 'a' <= s[i] && s[i] <= 'z' {
            assert(crate::text::is_lower_ascii(s@[i as int]));
            return true;
        }
        i = i + 1;
    }
    false
}

impl money_with_currency {
    /// The storage tuple: version, currency code, the mantissa's 16
    /// big-endian bytes, and the scale.
    pub fn storage_parts(&self) -> (r: (u8, &'static str, Vec<u8>, u32))
        ensures
            r.0 == STORAGE_VERSION,
            r.1 == self.currency_of().code,
            r.2@.len() == 16,
            be_signed(r.2@) == self.amount_of().mantissa,
            r.2@ == crate::binary::be_bytes_spec(self.amount_of().mantissa),
            r.3 == self.amount_of().scale,
    {
        (STORAGE_VERSION, self.currency.code, be_bytes_of(self.mantissa), self.scale)
    }

    /// Rebuilds a value from the storage tuple, refusing anything that is not
    /// exactly what `storage_parts` writes for a value (see `storage_error`).
    pub fn from_storage(catalog: &'static Catalog, version: u8, currency: &str, bytes: &[u8], scale: u32) -> (r:
        Result<Self, String>)
        requires
            bytes@.len() == 16,
        ensures
            r matches Err(e) ==> storage_error(version, currency@, bytes@, scale) == Some(e@),
            r matches Ok(v) ==> storage_error(version, currency@, bytes@, scale) is None
                && v.amount_of() == stored_amount(bytes@, scale) && currency_found(
                currency@,
                v.currency_of(),
            ) && v.currency_of().code@ == currency@,
            storage_error(version, currency@, bytes@, scale) is None ==> r is Ok,
    {
        if version != STORAGE_VERSION {
            let mut msg = "unsupported money storage version ".to_string();
            let number = Decimal::new(version as i64, 0).to_text();
            push_all(&mut msg, &chars_of(number.as_str()));
            return Err(msg);
        }
        let amount = decimal_from_parts(i128_of_be(bytes), scale)?;
        let normalized = amount.normalize();
        if normalized.mantissa != amount.mantissa || normalized.scale != amount.scale {
            return Err("money amount is not canonically encoded".to_string());
        }
        proof {
            crate::decimal::lemma_normalize(amount.mantissa as int, amount.scale as nat);
        }
        let code = chars_of(currency);
        if contains_lower(&code) {
            return Err("money currency is not canonically encoded".to_string());
        }
        let c = find_currency_chars(catalog, &code)?;
        if crate::text::compare_chars(&chars_of(c.code), &code) != 0 {
            return Err("money currency is not canonically encoded".to_string());
        }
        Ok(money_with_currency { mantissa: amount.mantissa, scale: amount.scale, currency: c })
    }

    /// The CBOR storage form (`money_binary_format` is `cbor-array-v1`).
    ///
    /// What it writes decodes, with `from_cbor`, to exactly this value.
    pub fn to_cbor(&self) -> (r: Result<Vec<u8>, String>)
        ensures
            bytes_result(r) == cbor_storage_encoding(
                STORAGE_VERSION,
                self.currency_of().code@,
                crate::binary::be_bytes_spec(self.amount_of().mantissa),
                self.amount_of().scale,
            ),
            r matches Ok(b) ==> cbor_decode_error(b@) is None && forall|v: money_with_currency|
                #[trigger] decoded_value(b@, v) ==> v == *self,
    {
        proof {
            use_type_invariant(self);
            lemma_code_is_key(self.currency_of());
        }
        let (version, code, bytes, scale) = self.storage_parts();
        let r = cbor_encode_storage(version, code, &bytes, scale);
        proof {
            if r is Ok {
                let b = r->Ok_0;
                assert(stored_amount(bytes@, scale) == self.amount_of());
                assert(cbor_decode_error(b@) is None);
                assert forall|v: money_with_currency| #[trigger] decoded_value(b@, v) implies v
                    == *self by {
                    assert(v.currency_of() == self.currency_of());
                    lemma_money_eq(v, *self);
                }
            }
        }
        r
    }

    /// Decodes the CBOR storage form and validates it (see `from_storage`).
    pub fn from_cbor(catalog: &'static Catalog, data: &[u8]) -> (r: Result<Self, String>)
        ensures
            r matches Err(e) ==> cbor_decode_error(data@) == Some(e@),
            r matches Ok(v) ==> cbor_decode_error(data@) is None && decoded_value(data@, v),
    {
        let ((version, code, bytes, scale), trailing) = cbor_decode_storage(data)?;
        let v = Self::from_storage(catalog, version, code.as_str(), &bytes, scale)?;
        match trailing {
            Some(e) => Err(e),
            None => Ok(v),
        }
    }
}

/// The error decoding CBOR storage bytes gives, if any: the decoder's own,
/// then the refusal of the storage tuple, then bytes left after the tuple.
pub open spec fn cbor_decode_error(data: Seq<u8>) -> Option<Seq<char>> {
    match cbor_storage_decoding(data) {
        Err(e) => Some(e),
        Ok((version, code, bytes, scale)) => match storage_error(version, code, bytes, scale) {
            Some(e) => Some(e),
            None => cbor_storage_trailing(data),
        },
    }
}

/// `v` is the value CBOR storage bytes describe.
pub open spec fn decoded_value(data: Seq<u8>, v: money_with_currency) -> bool {
    match cbor_storage_decoding(data) {
        Err(e) => false,
        Ok((version, code, bytes, scale)) => v.amount_of() == stored_amount(bytes, scale)
            && currency_found(code, v.currency_of()),
    }
}

} // verus!
