//! Localized display and parsing through rusty-money, and the validation of
//! custom formatting options.
use crate::catalog::{Catalog, Currency, Locale};
use crate::decimal::Decimal;
use crate::errors::MoneyError;
use crate::model::{
    contains_nul, currency_found, currency_missing, find_currency, money_with_currency,
    unknown_currency_message, MAX_INPUT_BYTES,
};
use crate::text::{chars_of, push_all};
use vstd::prelude::*;

verus! {

broadcast use vstd::string::group_string_axioms;

/// What rusty-money's `Display` of a `Money` writes for an amount in a
/// currency: the amount rounded half-even to the currency's exponent, with
/// the separators and grouping of the currency's locale and its symbol.
pub uninterp spec fn displayed_money(amount: Decimal, currency: Currency) -> Seq<char>;

/// The separators and grouping rusty-money's `LocalFormat::from_locale`
/// lists for a locale (its `locale.rs`): digit separator, group widths from
/// the right, decimal separator.
pub open spec fn rusty_money_local_format(locale: Locale) -> (char, Seq<usize>, char) {
    match locale {
        Locale::EnUs => (',', seq![3usize, 3, 3], '.'),
        Locale::EnIn => (',', seq![3usize, 2, 2], '.'),
        Locale::EnEu => ('.', seq![3usize, 3, 3], ','),
        Locale::EnBy => (' ', seq![3usize, 3, 3], ','),
    }
}

/// Formats an amount of a currency with rusty-money's `Display` for `Money`.
/// Trusted: the text is the named display; it depends on the amount and on
/// the currency's code, exponent, locale, symbol and symbol position, which
/// the body hands over. As its source writes it, `Display` is `Formatter`'s
/// writing of the amount with the separators and grouping of the currency's
/// locale (`rusty_money_local_format`), the sign, symbol and amount in the
/// currency's order, rounding to the currency's exponent and the symbol; the
/// code it also hands over is not among those positions, so the text is the
/// one `formatted_money` names without a code.
#[verifier::external_body]
pub(crate) fn display_money(amount: Decimal, currency: Currency) -> (r: String)
    requires
        amount.wf(),
        currency.exponent <= 28,
    ensures
        r@ == displayed_money(amount, currency),
        r@ == formatted_money(
            amount,
            rusty_money_local_format(currency.locale).0,
            rusty_money_local_format(currency.locale).2,
            rusty_money_local_format(currency.locale).1,
            default_positions(currency),
            currency.exponent,
            Some(currency.symbol@),
            None,
        ),
{
    let locale = match currency.locale {
        Locale::EnUs => rusty_money::Locale::EnUs,
        Locale::EnIn => rusty_money::Locale::EnIn,
        Locale::EnEu => rusty_money::Locale::EnEu,
        Locale::EnBy => rusty_money::Locale::EnBy,
    };
    let cur = rusty_money::iso::Currency {
        iso_alpha_code: currency.code, exponent: currency.exponent, locale,
        symbol: currency.symbol, symbol_first: currency.symbol_first, ..*rusty_money::iso::USD
    };
    let d = rust_decimal::Decimal::from_i128_with_scale(amount.mantissa, amount.scale);
    rusty_money::Money::from_decimal(d, &cur).to_string()
}

/// The localized text of a value (`money_format`). It is what
/// `money_format_with` writes with no options: the defaults of the
/// currency's locale are rusty-money's own.
pub fn money_format(value: money_with_currency) -> (r: String)
    ensures
        r@ == displayed_money(value.amount_of(), value.currency_of()),
        format_with_spec(value, no_format_options()) == Ok::<Seq<char>, Seq<char>>(r@),
{
    display_money(value.decimal(), *value.currency_ref())
}

/// Formatting options with every option missing.
pub open spec fn no_format_options() -> FormatOptions {
    FormatOptions {
        digit_separator: None,
        exponent_separator: None,
        separator_pattern: None,
        positions: None,
        rounding: None,
        include_symbol: None,
        include_code: None,
    }
}

/// The localized text of a minor-unit value (`money_minor_format`): the
/// display of its minor units at the currency's exponent.
pub fn money_minor_format(value: crate::minor::money_minor) -> (r: String)
    ensures
        r@ == displayed_money(
            Decimal { mantissa: value.units_of() as i128, scale: value.currency_of().exponent },
            value.currency_of(),
        ),
{
    display_money(value.as_decimal(), *value.currency_ref())
}

/// The separators and grouping of a locale: digit separator, group widths
/// from the right, decimal separator.
pub open spec fn locale_format_spec(locale: Locale) -> (char, Seq<usize>, char) {
    match locale {
        Locale::EnUs => (',', seq![3usize, 3, 3], '.'),
        Locale::EnIn => (',', seq![3usize, 2, 2], '.'),
        Locale::EnEu => ('.', seq![3usize, 3, 3], ','),
        Locale::EnBy => (' ', seq![3usize, 3, 3], ','),
    }
}

/// The separators and grouping of a locale, as rusty-money's
/// `LocalFormat::from_locale` lists them.
pub fn locale_format(locale: Locale) -> (r: (char, Vec<usize>, char))
    ensures
        (r.0, r.1@, r.2) == locale_format_spec(locale),
{
    match locale {
        Locale::EnUs => (',', vec![3, 3, 3], '.'),
        Locale::EnIn => (',', vec![3, 2, 2], '.'),
        Locale::EnEu => ('.', vec![3, 3, 3], ','),
        Locale::EnBy => (' ', vec![3, 3, 3], ','),
    }
}

/// Items of a formatted amount, in the order they are written.
#[derive(Clone, Copy, Debug, PartialEq, Eq, Structural)]
pub enum FormatPosition {
    Space,
    Amount,
    Code,
    Symbol,
    Sign,
}

/// Options of `money_format_with`; a missing option takes the currency's
/// default.
#[derive(Clone, Debug)]
pub struct FormatOptions {
    pub digit_separator: Option<String>,
    pub exponent_separator: Option<String>,
    pub separator_pattern: Option<Vec<usize>>,
    pub positions: Option<Vec<FormatPosition>>,
    pub rounding: Option<u32>,
    pub include_symbol: Option<bool>,
    pub include_code: Option<bool>,
}

/// What rusty-money's `Formatter::money` writes for an amount with these
/// parameters (rounding given).
pub uninterp spec fn formatted_money(
    amount: Decimal,
    digit_separator: char,
    exponent_separator: char,
    separator_pattern: Seq<usize>,
    positions: Seq<FormatPosition>,
    rounding: u32,
    symbol: Option<Seq<char>>,
    code: Option<Seq<char>>,
) -> Seq<char>;

pub open spec fn text_option(s: Option<&'static str>) -> Option<Seq<char>> {
    match s {
        Some(t) => Some(t@),
        None => None,
    }
}

/// Formats an amount with rusty-money's `Formatter::money`. Trusted: the text
/// is the named formatting of the amount with these parameters (the
/// formatter reads the amount, not the currency, of the money it is given).
#[verifier::external_body]
fn format_money(
    amount: Decimal,
    digit_separator: char,
    exponent_separator: char,
    separator_pattern: &[usize],
    positions: &[FormatPosition],
    rounding: u32,
    symbol: Option<&'static str>,
    code: Option<&'static str>,
) -> (r: String)
    requires
        amount.wf(),
        rounding <= 28,
    ensures
        r@ == formatted_money(
            amount,
            digit_separator,
            exponent_separator,
            separator_pattern@,
            positions@,
            rounding,
            text_option(symbol),
            text_option(code),
        ),
{
    let positions: Vec<rusty_money::Position> = positions.iter().map(|p| match p {
        FormatPosition::Space => rusty_money::Position::Space,
        FormatPosition::Amount => rusty_money::Position::Amount,
        FormatPosition::Code => rusty_money::Position::Code,
        FormatPosition::Symbol => rusty_money::Position::Symbol,
        FormatPosition::Sign => rusty_money::Position::Sign,
    }).collect();
    let d = rust_decimal::Decimal::from_i128_with_scale(amount.mantissa, amount.scale);
    let money = rusty_money::Money::from_decimal(d, rusty_money::iso::USD);
    let params = rusty_money::Params { digit_separator, exponent_separator, separator_pattern, positions: &positions, rounding: Some(rounding), symbol, code };
    rusty_money::Formatter::money(&money, params)
}

/// The one character of an option, its default when it is missing, or
/// `None` when it has another length.
pub open spec fn single_character_spec(value: Option<String>, default: char) -> Option<char> {
    match value {
        None => Some(default),
        Some(s) => if s@.len() == 1 {
            Some(s@[0])
        } else {
            None
        },
    }
}

/// The option's one character, or its default; refused with
/// `<field> must contain exactly one character` when the text has another
/// length.
pub fn single_character(value: &Option<String>, default: char, field: &str) -> (r: Result<
    char,
    String,
>)
    ensures
        single_character_spec(*value, default) matches Some(c) ==> r == Ok::<char, String>(c),
        single_character_spec(*value, default) is None ==> (r matches Err(e) && e@ == field@
            + " must contain exactly one character"@),
{
    match value {
        None => Ok(default),
        Some(s) => {
            let chars = chars_of(s.as_str());
            if chars.len() == 1 {
                Ok(chars[0])
            } else {
                let mut msg = String::new();
                push_all(&mut msg, &chars_of(field));
                push_all(&mut msg, &chars_of(" must contain exactly one character"));
                Err(msg)
            }
        },
    }
}

/// Group widths are between 1 and 16 of them, each from 1 to 9.
pub open spec fn pattern_ok(p: Seq<usize>) -> bool {
    &&& 1 <= p.len() <= 16
    &&& forall|i: int| 0 <= i < p.len() ==> 1 <= #[trigger] p[i] <= 9
}

/// The positions a currency writes by default: sign, then symbol and amount
/// in the currency's order.
pub open spec fn default_positions(c: Currency) -> Seq<FormatPosition> {
    if c.symbol_first {
        seq![FormatPosition::Sign, FormatPosition::Symbol, FormatPosition::Amount]
    } else {
        seq![FormatPosition::Sign, FormatPosition::Amount, FormatPosition::Symbol]
    }
}

pub open spec fn option_seq<T>(o: Option<Vec<T>>, default: Seq<T>) -> Seq<T> {
    match o {
        Some(v) => v@,
        None => default,
    }
}

/// What `money_format_with` gives: each option is validated in turn, and the
/// first refusal is reported; otherwise the formatted text.
pub open spec fn format_with_spec(value: money_with_currency, options: FormatOptions) -> Result<
    Seq<char>,
    Seq<char>,
> {
    let c = value.currency_of();
    let (locale_digit, locale_pattern, locale_exponent) = locale_format_spec(c.locale);
    let digit = single_character_spec(options.digit_separator, locale_digit);
    let exponent = single_character_spec(options.exponent_separator, locale_exponent);
    let pattern = option_seq(options.separator_pattern, locale_pattern);
    let positions = option_seq(options.positions, default_positions(c));
    let rounding: u32 = match options.rounding {
        Some(r) => r,
        None => c.exponent,
    };
    if digit is None {
        Err("digit_separator must contain exactly one character"@)
    } else if exponent is None {
        Err("exponent_separator must contain exactly one character"@)
    } else if digit->0 == exponent->0 {
        Err("digit_separator and exponent_separator must differ"@)
    } else if !pattern_ok(pattern) {
        Err("separator_pattern must contain between 1 and 16 widths from 1 to 9"@)
    } else if !(1 <= positions.len() <= 16) {
        Err("positions must contain between 1 and 16 entries"@)
    } else if rounding > 28 {
        Err("rounding must be between 0 and 28"@)
    } else {
        Ok(
            formatted_money(
                value.amount_of(),
                digit->0,
                exponent->0,
                pattern,
                positions,
                rounding,
                if options.include_symbol != Some(false) {
                    Some(c.symbol@)
                } else {
                    None
                },
                if options.include_code == Some(true) {
                    Some(c.code@)
                } else {
                    None
                },
            ),
        )
    }
}

pub open spec fn string_result(r: Result<String, String>) -> Result<Seq<char>, Seq<char>> {
    match r {
        Ok(s) => Ok(s@),
        Err(e) => Err(e@),
    }
}

fn pattern_valid(p: &Vec<usize>) -> (r: bool)
    ensures
        r == pattern_ok(p@),
{
    if p.len() < 1 || p.len() > 16 {
        return false;
    }
    let mut i: usize = 0;
    while i < p.len()
        invariant
            i <= p@.len(),
            forall|j: int| 0 <= j < i ==> 1 <= #[trigger] p@[j] <= 9,
        decreases p@.len() - i,
    {
        if p[i] < 1 || p[i] > 9 {
            return false;
        }
        i = i + 1;
    }
    true
}

/// Formats a value with custom options, validating each of them first (see
/// `format_with_spec`).
pub fn money_format_with(value: money_with_currency, options: FormatOptions) -> (r: Result<
    String,
    String,
>)
    ensures
        string_result(r) == format_with_spec(value, options),
{
    let currency = value.currency_ref();
    let (locale_digit, locale_pattern, locale_exponent) = locale_format(currency.locale);
    let digit_separator = match single_character(
        &options.digit_separator,
        locale_digit,
        "digit_separator",
    ) {
        Ok(c) => c,
        Err(e) => {
            proof {
                reveal_strlit("digit_separator");
                reveal_strlit(" must contain exactly one character");
                reveal_strlit("digit_separator must contain exactly one character");
                assert("digit_separator"@ + " must contain exactly one character"@
                    =~= "digit_separator must contain exactly one character"@);
            }
            return Err(e);
        },
    };
    let exponent_separator = match single_character(
        &options.exponent_separator,
        locale_exponent,
        "exponent_separator",
    ) {
        Ok(c) => c,
        Err(e) => {
            proof {
                reveal_strlit("exponent_separator");
                reveal_strlit(" must contain exactly one character");
                reveal_strlit("exponent_separator must contain exactly one character");
                assert("exponent_separator"@ + " must contain exactly one character"@
                    =~= "exponent_separator must contain exactly one character"@);
            }
            return Err(e);
        },
    };
    if digit_separator == exponent_separator {
        return Err("digit_separator and exponent_separator must differ".to_string());
    }
    let separator_pattern = match &options.separator_pattern {
        Some(p) => p.clone(),
        None => locale_pattern,
    };
    if !pattern_valid(&separator_pattern) {
        return Err(
            "separator_pattern must contain between 1 and 16 widths from 1 to 9".to_string(),
        );
    }
    let positions = match &options.positions {
        Some(p) => p.clone(),
        None => if currency.symbol_first {
            vec![FormatPosition::Sign, FormatPosition::Symbol, FormatPosition::Amount]
        } else {
            vec![FormatPosition::Sign, FormatPosition::Amount, FormatPosition::Symbol]
        },
    };
    if positions.len() < 1 || positions.len() > 16 {
        return Err("positions must contain between 1 and 16 entries".to_string());
    }
    let rounding = match options.rounding {
        Some(r) => r,
        None => currency.exponent,
    };
    if rounding > 28 {
        return Err("rounding must be between 0 and 28".to_string());
    }
    let symbol = match options.include_symbol {
        Some(false) => None,
        _ => Some(currency.symbol),
    };
    let code = match options.include_code {
        Some(true) => Some(currency.code),
        _ => None,
    };
    Ok(
        format_money(
            value.decimal(),
            digit_separator,
            exponent_separator,
            &separator_pattern,
            &positions,
            rounding,
            symbol,
            code,
        ),
    )
}

/// What rusty-money's `Money::from_str` reads from a text for a currency of
/// this locale and exponent, when it accepts the text.
pub uninterp spec fn localized_amount(input: Seq<char>, locale: Locale, exponent: u32) -> Option<Decimal>;

/// Parses a localized amount with rusty-money's `Money::from_str`. Trusted:
/// the result is the named reading (the function reads only the currency's
/// locale and exponent); an accepted amount fits the decimal model.
#[verifier::external_body]
fn parse_localized_amount(input: &str, locale: Locale, exponent: u32) -> (r: Option<Decimal>)
    ensures
        r == localized_amount(input@, locale, exponent),
        r matches Some(d) ==> d.wf(),
{
    let locale = match locale {
        Locale::EnUs => rusty_money::Locale::EnUs,
        Locale::EnIn => rusty_money::Locale::EnIn,
        Locale::EnEu => rusty_money::Locale::EnEu,
        Locale::EnBy => rusty_money::Locale::EnBy,
    };
    let cur = rusty_money::iso::Currency { exponent, locale, ..*rusty_money::iso::USD };
    match rusty_money::Money::from_str(input, &cur) {
        Ok(m) => Some(Decimal { mantissa: m.amount().mantissa(), scale: m.amount().scale() }),
        Err(_) => None,
    }
}

/// What `parse_localized` gives.
pub open spec fn localized_error(input: Seq<char>, currency: Seq<char>) -> Option<Seq<char>> {
    let b = vstd::utf8::encode_utf8(input);
    if b.len() > 128 {
        Some("input exceeds 128 bytes"@)
    } else if b.contains(0u8) {
        Some("input contains a NUL byte"@)
    } else if currency_missing(currency) {
        Some(unknown_currency_message(currency))
    } else {
        None
    }
}

/// Parses an amount written in the currency's locale (grouping and decimal
/// separators of its locale) in the currency a code names.
pub fn parse_localized(catalog: &'static Catalog, input: &str, currency: &str) -> (r: Result<
    money_with_currency,
    String,
>)
    ensures
        localized_error(input@, currency@) matches Some(e) ==> (r matches Err(m) && m@ == e),
        localized_error(input@, currency@) is None ==> exists|c: Currency|
            #![trigger currency_found(currency@, c)]
            currency_found(currency@, c) && match localized_amount(input@, c.locale, c.exponent) {
                Some(d) => r matches Ok(v) && v.currency_of() == c && v.amount_of() == d.normalized(),
                None => r matches Err(m) && m@ == MoneyError::InvalidAmount.message_spec(),
            },
{
    if input.as_bytes().len() > MAX_INPUT_BYTES {
        return Err("input exceeds 128 bytes".to_string());
    }
    if contains_nul(input) {
        return Err("input contains a NUL byte".to_string());
    }
    let c = find_currency(catalog, currency)?;
    match parse_localized_amount(input, c.locale, c.exponent) {
        Some(d) => Ok(money_with_currency::from_known_currency(d, c)),
        None => Err(MoneyError::InvalidAmount.message()),
    }
}

/// `parse_localized`, with `None` for every refusal.
pub fn money_try_parse_localized(catalog: &'static Catalog, input: &str, currency: &str) -> (r: Option<
    money_with_currency,
>)
    ensures
        localized_error(input@, currency@) is Some ==> r is None,
        localized_error(input@, currency@) is None ==> exists|c: Currency|
            #![trigger currency_found(currency@, c)]
            currency_found(currency@, c) && match localized_amount(input@, c.locale, c.exponent) {
                Some(d) => r matches Some(v) && v.currency_of() == c && v.amount_of() == d.normalized(),
                None => r is None,
            },
{
    match parse_localized(catalog, input, currency) {
        Ok(v) => Some(v),
        Err(_) => None,
    }
}

} // verus!
