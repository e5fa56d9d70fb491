//! Failures of money arithmetic, with the messages users see.
use crate::text::push_all;
use crate::text::chars_of;
use vstd::prelude::*;

verus! {

/// The failures rusty-money reports, as this library reports them too.
#[derive(Clone, Copy, Debug, PartialEq, Eq)]
pub enum MoneyError {
    InvalidCurrency,
    InvalidAmount,
    InvalidRatio,
    /// Arithmetic or comparison between different currencies.
    CurrencyMismatch { expected: &'static str, actual: &'static str },
    DivisionByZero,
    Overflow,
    PrecisionLoss,
}

impl MoneyError {
    pub open spec fn message_spec(self) -> Seq<char> {
        match self {
            MoneyError::InvalidCurrency => "Currency was not valid"@,
            MoneyError::InvalidAmount => "Amount not parsable"@,
            MoneyError::InvalidRatio => "Ratio was not valid"@,
            MoneyError::CurrencyMismatch { expected, actual } => "Currency mismatch: expected "@
                + expected@ + ", got "@ + actual@,
            MoneyError::DivisionByZero => "Division by zero"@,
            MoneyError::Overflow => "Arithmetic overflow"@,
            MoneyError::PrecisionLoss => "Conversion would lose precision"@,
        }
    }

    /// The message users see, as rusty-money's `Display` words it.
    pub fn message(&self) -> (r: String)
        ensures
            r@ == self.message_spec(),
    {
        match self {
            MoneyError::InvalidCurrency => "Currency was not valid".to_string(),
            MoneyError::InvalidAmount => "Amount not parsable".to_string(),
            MoneyError::InvalidRatio => "Ratio was not valid".to_string(),
            MoneyError::CurrencyMismatch { expected, actual } => {
                let mut r = "Currency mismatch: expected ".to_string();
                push_all(&mut r, &chars_of(expected));
                push_all(&mut r, &chars_of(", got "));
                push_all(&mut r, &chars_of(actual));
                r
            },
            MoneyError::DivisionByZero => "Division by zero".to_string(),
            MoneyError::Overflow => "Arithmetic overflow".to_string(),
            MoneyError::PrecisionLoss => "Conversion would lose precision".to_string(),
        }
    }
}

/// The hint that accompanies a refused text input.
pub const INPUT_HINT: &'static str = "Use the locale-independent form 'USD 123.45'.";

pub open spec fn input_error_spec(reason: Seq<char>) -> Seq<char> {
    "invalid input syntax for type money_with_currency: "@ + reason
}

pub open spec fn binary_error_spec(reason: Seq<char>) -> Seq<char> {
    "invalid binary representation for type money_with_currency: "@ + reason
}

/// The message of a refused text input.
pub fn input_error(reason: &str) -> (r: String)
    ensures
        r@ == input_error_spec(reason@),
{
    let mut r = "invalid input syntax for type money_with_currency: ".to_string();
    push_all(&mut r, &chars_of(reason));
    r
}

/// The message of a refused binary input.
pub fn binary_error(reason: &str) -> (r: String)
    ensures
        r@ == binary_error_spec(reason@),
{
    let mut r = "invalid binary representation for type money_with_currency: ".to_string();
    push_all(&mut r, &chars_of(reason));
    r
}

} // verus!
