//! Fixed-point decimal values as plain integers: a signed 96-bit mantissa
//! and a power-of-ten scale, exactly the information a `rust_decimal::Decimal`
//! carries apart from the sign of zero.
use crate::text::string_of;
use std::str::FromStr;
use vstd::prelude::*;

verus! {

/// Largest magnitude of a 96-bit mantissa (2^96 - 1).
pub const MAX_MANTISSA: i128 = 79228162514264337593543950335i128;

/// Largest supported scale (number of fractional digits).
pub const MAX_SCALE: u32 = 28u32;

/// 10^n as a mathematical integer.
pub open spec fn pow10(n: nat) -> nat
    decreases n,
{
    if n == 0 {
        1
    } else {
        10 * pow10((n - 1) as nat)
    }
}

pub open spec fn abs_int(x: int) -> nat {
    if x < 0 {
        (-x) as nat
    } else {
        x as nat
    }
}

/// A decimal number `mantissa / 10^scale`.
#[derive(Clone, Copy, Debug, PartialEq, Eq, Structural)]
pub struct Decimal {
    pub mantissa: i128,
    pub scale: u32,
}

/// Stripping of trailing zeros; zero becomes `0` with scale 0.
pub open spec fn spec_normalize(mantissa: int, scale: nat) -> (int, nat)
    decreases scale,
{
    if mantissa == 0 {
        (0, 0)
    } else if scale > 0 && mantissa % 10 == 0 {
        spec_normalize(mantissa / 10, (scale - 1) as nat)
    } else {
        (mantissa, scale)
    }
}

impl Decimal {
    /// The value fits a 96-bit mantissa and a scale of at most 28.
    pub open spec fn wf(self) -> bool {
        &&& -MAX_MANTISSA <= self.mantissa <= MAX_MANTISSA
        &&& self.scale <= MAX_SCALE
    }

    /// Both decimals denote the same rational number.
    pub open spec fn same_value(self, other: Decimal) -> bool {
        self.mantissa * pow10(other.scale as nat) == other.mantissa * pow10(self.scale as nat)
    }

    /// No trailing fractional zeros, and zero is written with scale 0.
    pub open spec fn is_normalized(self) -> bool {
        &&& (self.mantissa == 0 ==> self.scale == 0)
        &&& (self.scale > 0 ==> self.mantissa % 10 != 0)
    }

    pub open spec fn normalized(self) -> Decimal {
        let (m, s) = spec_normalize(self.mantissa as int, self.scale as nat);
        Decimal { mantissa: m as i128, scale: s as u32 }
    }

    pub fn new(mantissa: i64, scale: u32) -> (r: Decimal)
        requires
            scale <= MAX_SCALE,
        ensures
            r.wf(),
            r.mantissa == mantissa,
            r.scale == scale,
    {
        Decimal { mantissa: mantissa as i128, scale }
    }

    pub fn zero() -> (r: Decimal)
        ensures
            r.wf(),
            r.mantissa == 0,
            r.scale == 0,
    {
        Decimal { mantissa: 0, scale: 0 }
    }

    pub fn one() -> (r: Decimal)
        ensures
            r.wf(),
            r.mantissa == 1,
            r.scale == 0,
    {
        Decimal { mantissa: 1, scale: 0 }
    }

    /// The largest representable value, 79228162514264337593543950335.
    pub fn max_value() -> (r: Decimal)
        ensures
            r.wf(),
            r.mantissa == MAX_MANTISSA,
            r.scale == 0,
    {
        Decimal { mantissa: MAX_MANTISSA, scale: 0 }
    }

    pub fn is_zero(&self) -> (r: bool)
        ensures
            r == (self.mantissa == 0),
    {
        self.mantissa == 0
    }

    pub fn is_sign_negative(&self) -> (r: bool)
        ensures
            r == (self.mantissa < 0),
    {
        self.mantissa < 0
    }

    pub fn is_sign_positive(&self) -> (r: bool)
        ensures
            r == (self.mantissa > 0),
    {
        self.mantissa > 0
    }

    /// Absolute value, at the same scale.
    pub fn abs(&self) -> (r: Decimal)
        requires
            self.wf(),
        ensures
            r.wf(),
            r.mantissa == abs_int(self.mantissa as int),
            r.scale == self.scale,
    {
        if self.mantissa < 0 {
            Decimal { mantissa: -self.mantissa, scale: self.scale }
        } else {
            *self
        }
    }

    /// Negation, at the same scale.
    pub fn neg(&self) -> (r: Decimal)
        requires
            self.wf(),
        ensures
            r.wf(),
            r.mantissa == -self.mantissa,
            r.scale == self.scale,
    {
        Decimal { mantissa: -self.mantissa, scale: self.scale }
    }

    /// Strips trailing fractional zeros, and writes zero as `0` with scale 0.
    pub fn normalize(&self) -> (r: Decimal)
        requires
            self.wf(),
        ensures
            r == self.normalized(),
            r.wf(),
            r.is_normalized(),
            r.same_value(*self),
    {
        proof {
            lemma_normalize(self.mantissa as int, self.scale as nat);
        }
        if self.mantissa == 0 {
            return Decimal { mantissa: 0, scale: 0 };
        }
        let mut m: i128 = self.mantissa;
        let mut s: u32 = self.scale;
        while s > 0 && m % 10 == 0
            invariant
                m != 0,
                -MAX_MANTISSA <= m <= MAX_MANTISSA,
                s <= self.scale,
                spec_normalize(m as int, s as nat) == spec_normalize(
                    self.mantissa as int,
                    self.scale as nat,
                ),
            decreases s,
        {
            proof {
                lemma_mod10_exec_spec(m);
            }
            m = m / 10;
            s = s - 1;
        }
        proof {
            lemma_mod10_exec_spec(m);
        }
        Decimal { mantissa: m, scale: s }
    }
}

/// Rust's truncating `%` and `/` by 10 agree with the Euclidean ones of
/// specifications on exactly divisible operands.
proof fn lemma_mod10_exec_spec(m: i128)
    ensures
        (m % 10 == 0) == ((m as int) % 10 == 0),
        (m as int) % 10 == 0 ==> (m / 10) as int == (m as int) / 10,
{
}

/// What normalization keeps and establishes.
pub proof fn lemma_normalize(m: int, s: nat)
    ensures
        ({
            let (m2, s2) = spec_normalize(m, s);
            &&& s2 <= s
            &&& abs_int(m2) <= abs_int(m)
            &&& (m2 == 0 <==> m == 0)
            &&& (m2 < 0 <==> m < 0)
            &&& (m2 == 0 ==> s2 == 0)
            &&& (s2 > 0 ==> m2 % 10 != 0)
            &&& m * pow10(s2) == m2 * pow10(s)
        }),
    decreases s,
{
    if m == 0 {
    } else if s > 0 && m % 10 == 0 {
        let q = m / 10;
        lemma_normalize(q, (s - 1) as nat);
        let (m2, s2) = spec_normalize(q, (s - 1) as nat);
        assert(m == q * 10);
        assert(pow10(s) == 10 * pow10((s - 1) as nat));
        assert(q * pow10(s2) == m2 * pow10((s - 1) as nat));
        assert(m * pow10(s2) == 10 * (q * pow10(s2))) by (nonlinear_arith)
            requires
                m == q * 10,
        ;
        assert(m2 * pow10(s) == 10 * (m2 * pow10((s - 1) as nat))) by (nonlinear_arith)
            requires
                pow10(s) == 10 * pow10((s - 1) as nat),
        ;
    } else {
    }
}


// ---------------------------------------------------------------------------
// Decimal text
// ---------------------------------------------------------------------------

pub open spec fn is_digit(c: char) -> bool {
    '0' <= c && c <= '9'
}

pub open spec fn digit_value(c: char) -> nat {
    ((c as u32) - 48) as nat
}

pub open spec fn digit_char(d: nat) -> char {
    ((48 + d) as u8) as char
}

/// Decimal digits of `n`, most significant first; no digits for zero.
pub open spec fn digits_of(n: nat) -> Seq<char>
    decreases n,
{
    if n == 0 {
        Seq::empty()
    } else {
        digits_of(n / 10).push(digit_char(n % 10))
    }
}

pub open spec fn zeros(n: nat) -> Seq<char> {
    Seq::new(n, |i: int| '0')
}

/// The unsigned text of `magnitude / 10^scale`, as `Decimal`'s `Display` writes it.
pub open spec fn unsigned_text(magnitude: nat, scale: nat) -> Seq<char> {
    let d = digits_of(magnitude);
    let p = if d.len() < scale {
        zeros((scale - d.len()) as nat) + d
    } else {
        d
    };
    if scale == 0 {
        if p.len() == 0 {
            seq!['0']
        } else {
            p
        }
    } else {
        let w = p.len() - scale;
        (if w == 0 {
            seq!['0']
        } else {
            p.take(w)
        }) + seq!['.'] + p.skip(w)
    }
}

/// The text `Decimal`'s `Display` writes: an optional `-` and the unsigned text.
pub open spec fn decimal_text(d: Decimal) -> Seq<char> {
    if d.mantissa < 0 {
        seq!['-'] + unsigned_text(abs_int(d.mantissa as int), d.scale as nat)
    } else {
        unsigned_text(abs_int(d.mantissa as int), d.scale as nat)
    }
}

/// The decimal digits of a magnitude, most significant first.
fn magnitude_digits(n: u128) -> (r: Vec<char>)
    ensures
        r@ == digits_of(n as nat),
{
    let mut acc: Vec<char> = Vec::new();
    let mut k: u128 = n;
    while k > 0
        invariant
            digits_of(n as nat) == digits_of(k as nat) + acc@,
        decreases k,
    {
        let d = (k % 10) as u8;
        let c = (48u8 + d) as char;
        let ghost old_acc = acc@;
        acc.insert(0, c);
        assert(digits_of(k as nat) == digits_of((k / 10) as nat).push(digit_char((k % 10) as nat)));
        assert(acc@ == seq![c] + old_acc);
        assert(digits_of((k / 10) as nat) + acc@ =~= digits_of(k as nat) + old_acc);
        k = k / 10;
    }
    assert(digits_of(0) == Seq::<char>::empty());
    assert(acc@ =~= digits_of(n as nat));
    acc
}

impl Decimal {
    /// The decimal's text, as `rust_decimal::Decimal`'s `Display` writes it:
    /// an optional `-`, the integer digits (at least `0`), and for a positive
    /// scale a `.` followed by exactly `scale` fractional digits.
    pub fn to_text(&self) -> (r: String)
        requires
            self.wf(),
        ensures
            r@ == decimal_text(*self),
    {
        let negative = self.mantissa < 0;
        let magnitude: u128 = if negative {
            (-self.mantissa) as u128
        } else {
            self.mantissa as u128
        };
        let scale = self.scale as usize;
        let digits = magnitude_digits(magnitude);
        let mut padded: Vec<char> = Vec::new();
        let mut z: usize = digits.len();
        while z < scale
            invariant
                digits.len() <= z <= scale || (scale < digits.len() && z == digits.len()),
                padded@ == zeros((z - digits@.len()) as nat),
            decreases scale - z,
        {
            padded.push('0');
            z = z + 1;
            assert(padded@ =~= zeros((z - digits@.len()) as nat));
        }
        let mut i: usize = 0;
        let ghost pre = padded@;
        while i < digits.len()
            invariant
                i <= digits@.len(),
                padded@ == pre + digits@.take(i as int),
            decreases digits@.len() - i,
        {
            padded.push(digits[i]);
            i = i + 1;
            assert(digits@.take(i as int) == digits@.take((i - 1) as int).push(digits@[i - 1]));
        }
        assert(digits@.take(digits@.len() as int) == digits@);
        let ghost d = digits_of(abs_int(self.mantissa as int));
        assert(d == digits@);
        let ghost p = if d.len() < scale {
            zeros((scale - d.len()) as nat) + d
        } else {
            d
        };
        assert(padded@ =~= p);
        let mut out: Vec<char> = Vec::new();
        if negative {
            out.push('-');
        }
        let ghost sign = out@;
        if scale == 0 {
            if padded.len() == 0 {
                out.push('0');
            } else {
                let mut j: usize = 0;
                while j < padded.len()
                    invariant
                        j <= padded@.len(),
                        out@ == sign + padded@.take(j as int),
                    decreases padded@.len() - j,
                {
                    out.push(padded[j]);
                    j = j + 1;
                    assert(padded@.take(j as int) == padded@.take((j - 1) as int).push(
                        padded@[j - 1],
                    ));
                }
                assert(padded@.take(padded@.len() as int) == padded@);
            }
        } else {
            let w = padded.len() - scale;
            let ghost head = if w == 0 {
                seq!['0']
            } else {
                p.take(w as int)
            };
            if w == 0 {
                out.push('0');
            } else {
                let mut j: usize = 0;
                while j < w
                    invariant
                        j <= w <= padded@.len(),
                        out@ == sign + padded@.take(j as int),
                    decreases w - j,
                {
                    out.push(padded[j]);
                    j = j + 1;
                    assert(padded@.take(j as int) == padded@.take((j - 1) as int).push(
                        padded@[j - 1],
                    ));
                }
            }
            assert(out@ =~= sign + head);
            out.push('.');
            let ghost mid = out@;
            let mut j: usize = w;
            while j < padded.len()
                invariant
                    w <= j <= padded@.len(),
                    out@ == mid + padded@.subrange(w as int, j as int),
                decreases padded@.len() - j,
            {
                out.push(padded[j]);
                j = j + 1;
                assert(padded@.subrange(w as int, j as int) == padded@.subrange(
                    w as int,
                    (j - 1) as int,
                ).push(padded@[j - 1]));
            }
            assert(padded@.subrange(w as int, padded@.len() as int) == padded@.skip(w as int));
        }
        let r = string_of(&out);
        assert(r@ =~= decimal_text(*self));
        r
    }
}

// ---------------------------------------------------------------------------
// Plain decimal numbers: `[+-]? digits with at most one '.'`
// ---------------------------------------------------------------------------

/// Only digits and at most one `.`, with at least one digit.
pub open spec fn plain_body(s: Seq<char>) -> bool {
    &&& forall|i: int| 0 <= i < s.len() ==> is_digit(#[trigger] s[i]) || s[i] == '.'
    &&& forall|i: int, j: int| 0 <= i < j < s.len() && #[trigger] s[i] == '.' ==> #[trigger] s[j] != '.'
    &&& exists|i: int| 0 <= i < s.len() && is_digit(#[trigger] s[i])
}

pub open spec fn has_sign(s: Seq<char>) -> bool {
    s.len() > 0 && (s[0] == '+' || s[0] == '-')
}

/// The part after an optional leading sign.
pub open spec fn unsigned_part(s: Seq<char>) -> Seq<char> {
    if has_sign(s) {
        s.drop_first()
    } else {
        s
    }
}

/// An optional `+` or `-` followed by a plain body.
pub open spec fn plain_number(s: Seq<char>) -> bool {
    plain_body(unsigned_part(s))
}

/// The integer formed by all digits, the `.` skipped.
pub open spec fn digits_value(s: Seq<char>) -> nat
    decreases s.len(),
{
    if s.len() == 0 {
        0
    } else if s.last() == '.' {
        digits_value(s.drop_last())
    } else {
        digits_value(s.drop_last()) * 10 + digit_value(s.last())
    }
}

/// The number of digits after the `.`.
pub open spec fn fraction_len(s: Seq<char>) -> nat
    decreases s.len(),
{
    if s.len() == 0 || s.last() == '.' {
        0
    } else if s.drop_last().contains('.') {
        fraction_len(s.drop_last()) + 1
    } else {
        0
    }
}

/// The exact value of a plain number: signed integer of all digits, and the
/// count of fractional digits.
pub open spec fn plain_mantissa(s: Seq<char>) -> int {
    if s.len() > 0 && s[0] == '-' {
        -digits_value(unsigned_part(s))
    } else {
        digits_value(unsigned_part(s)) as int
    }
}

pub open spec fn plain_scale(s: Seq<char>) -> nat {
    fraction_len(unsigned_part(s))
}

/// `d` has the exact value of the plain number `s`.
pub open spec fn denotes(d: Decimal, s: Seq<char>) -> bool {
    d.mantissa * pow10(plain_scale(s)) == plain_mantissa(s) * pow10(d.scale as nat)
}

/// Some model decimal has the exact value of the plain number `s`.
pub open spec fn representable(s: Seq<char>) -> bool {
    exists|d: Decimal| d.wf() && #[trigger] denotes(d, s)
}

/// The digits before the `.` (all of them when there is none).
pub open spec fn before_point(s: Seq<char>) -> Seq<char>
    decreases s.len(),
{
    if s.len() == 0 || s[0] == '.' {
        Seq::empty()
    } else {
        seq![s[0]] + before_point(s.drop_first())
    }
}

/// What `rust_decimal::Decimal::from_str` gives for a text.
pub uninterp spec fn decimal_parse(text: Seq<char>) -> Option<Decimal>;

/// Parses `text` with `rust_decimal::Decimal::from_str`. Trusted: every
/// `Decimal` fits the model; a plain number whose digits, read as one integer,
/// fit 96 bits and whose fractional digits are at most 28 parses exactly; a
/// plain number whose value some model decimal has parses to that value (the
/// parser keeps digits while they fit, and what it drops is then zeros); a
/// plain number whose integer part reaches 2^96 is refused (its overflow from
/// too many digits before the point). What it makes of other plain numbers
/// (too many significant fractional digits, which it rounds) and of texts
/// outside the plain form is left to the name.
#[verifier::external_body]
pub(crate) fn parse_decimal_text(text: &[char]) -> (r: Option<Decimal>)
    ensures
        r == decimal_parse(text@),
        r matches Some(d) ==> d.wf(),
        plain_number(text@) && digits_value(unsigned_part(text@)) <= MAX_MANTISSA && plain_scale(
            text@,
        ) <= MAX_SCALE ==> r == Some(
            Decimal { mantissa: plain_mantissa(text@) as i128, scale: plain_scale(text@) as u32 },
        ),
        plain_number(text@) && representable(text@) ==> r is Some && denotes(r->0, text@),
        plain_number(text@) && digits_value(before_point(unsigned_part(text@))) > MAX_MANTISSA
            ==> r is None,
{
    let text: String = text.iter().collect();
    match rust_decimal::Decimal::from_str(&text) {
        Ok(d) => Some(Decimal { mantissa: d.mantissa(), scale: d.scale() }),
        Err(_) => None,
    }
}

// ---------------------------------------------------------------------------
// Reading a decimal's text back as a plain number
// ---------------------------------------------------------------------------

pub open spec fn all_digits(s: Seq<char>) -> bool {
    forall|i: int| 0 <= i < s.len() ==> is_digit(#[trigger] s[i])
}

proof fn lemma_digit_char(d: nat)
    requires
        d < 10,
    ensures
        is_digit(digit_char(d)),
        digit_value(digit_char(d)) == d,
{
    let b: u8 = (48 + d) as u8;
    assert(b == 48 + d);
    assert((b as char) as u32 == b as u32);
}

pub proof fn lemma_pow10_pos(n: nat)
    ensures
        pow10(n) > 0,
    decreases n,
{
    if n > 0 {
        lemma_pow10_pos((n - 1) as nat);
    }
}

/// 10^(a + b) = 10^a * 10^b.
pub proof fn lemma_pow10_add(a: nat, b: nat)
    ensures
        pow10(a + b) == pow10(a) * pow10(b),
    decreases b,
{
    if b > 0 {
        lemma_pow10_add(a, (b - 1) as nat);
        assert((a + (b - 1) as nat) as nat == (a + b - 1) as nat);
        assert(pow10(a + b) == 10 * pow10((a + b - 1) as nat));
        assert(pow10((a + b - 1) as nat) == pow10(a) * pow10((b - 1) as nat));
        assert(pow10(b) == 10 * pow10((b - 1) as nat));
        assert(pow10(a) * (10 * pow10((b - 1) as nat)) == 10 * (pow10(a) * pow10((b - 1) as nat)))
            by (nonlinear_arith);
    } else {
        assert(pow10(0) == 1);
        assert(a + b == a);
    }
}

proof fn lemma_digits_of(n: nat)
    ensures
        all_digits(digits_of(n)),
        digits_value(digits_of(n)) == n,
        n < pow10(digits_of(n).len()),
    decreases n,
{
    if n > 0 {
        lemma_digits_of(n / 10);
        lemma_digit_char(n % 10);
        let s = digits_of(n);
        let p = digits_of(n / 10);
        assert(s == p.push(digit_char(n % 10)));
        assert(s.drop_last() =~= p);
        assert(s.last() == digit_char(n % 10));
        assert forall|i: int| 0 <= i < s.len() implies is_digit(#[trigger] s[i]) by {
            if i < p.len() {
                assert(s[i] == p[i]);
            }
        }
        assert(pow10(s.len()) == 10 * pow10(p.len()));
    }
}

proof fn lemma_digits_of_short(n: nat, k: nat)
    requires
        n < pow10(k),
    ensures
        digits_of(n).len() <= k,
    decreases n,
{
    if n > 0 {
        assert(k > 0) by {
            if k == 0 {
                assert(pow10(0) == 1);
            }
        }
        assert(n / 10 < pow10((k - 1) as nat));
        lemma_digits_of_short(n / 10, (k - 1) as nat);
    }
}

proof fn lemma_zeros(k: nat)
    ensures
        all_digits(zeros(k)),
        digits_value(zeros(k)) == 0,
    decreases k,
{
    if k > 0 {
        lemma_zeros((k - 1) as nat);
        assert(zeros(k).drop_last() =~= zeros((k - 1) as nat));
        assert(digit_value('0') == 0);
    }
}

/// Appending digits shifts the value left.
proof fn lemma_digits_value_concat(a: Seq<char>, b: Seq<char>)
    requires
        all_digits(b),
    ensures
        digits_value(a + b) == digits_value(a) * pow10(b.len()) + digits_value(b),
    decreases b.len(),
{
    if b.len() == 0 {
        assert(a + b =~= a);
        assert(pow10(0) == 1);
        assert(digits_value(b) == 0);
    } else {
        let b1 = b.drop_last();
        assert forall|i: int| 0 <= i < b1.len() implies is_digit(#[trigger] b1[i]) by {
            assert(b1[i] == b[i]);
        }
        lemma_digits_value_concat(a, b1);
        assert(b.last() != '.');
        assert(digits_value(b) == digits_value(b1) * 10 + digit_value(b.last()));
        assert((a + b).drop_last() =~= a + b1);
        assert((a + b).last() == b.last());
        assert((a + b).len() > 0);
        assert(digits_value(a + b) == digits_value((a + b).drop_last()) * 10 + digit_value((a
            + b).last()));
        assert(is_digit(b[b.len() - 1]));
        let x = digits_value(a);
        let p = pow10(b1.len());
        let y = digits_value(b1);
        let l = digit_value(b.last());
        assert(pow10(b.len()) == 10 * p);
        assert((x * p + y) * 10 + l == x * (10 * p) + (y * 10 + l)) by (nonlinear_arith);
    }
}

proof fn lemma_no_point_fraction(s: Seq<char>)
    requires
        !s.contains('.'),
    ensures
        fraction_len(s) == 0,
{
    if s.len() > 0 && s.drop_last().contains('.') {
        let i = choose|i: int| 0 <= i < s.drop_last().len() && s.drop_last()[i] == '.';
        assert(s[i] == '.');
    }
}

/// Digits after the last `.` count as fractional digits.
proof fn lemma_fraction_len_concat(a: Seq<char>, b: Seq<char>)
    requires
        all_digits(b),
    ensures
        fraction_len(a + b) == if a.contains('.') {
            fraction_len(a) + b.len()
        } else {
            0
        },
    decreases b.len(),
{
    if b.len() == 0 {
        assert(a + b =~= a);
        if !a.contains('.') {
            lemma_no_point_fraction(a);
        }
    } else {
        let b1 = b.drop_last();
        assert forall|i: int| 0 <= i < b1.len() implies is_digit(#[trigger] b1[i]) by {
            assert(b1[i] == b[i]);
        }
        lemma_fraction_len_concat(a, b1);
        let s = a + b;
        assert(s.drop_last() =~= a + b1);
        assert(s.last() == b.last());
        assert(is_digit(b[b.len() - 1]));
        vstd::seq_lib::lemma_seq_concat_contains_all_elements(a, b1, '.');
        if b1.contains('.') {
            let i = choose|i: int| 0 <= i < b1.len() && b1[i] == '.';
            assert(is_digit(b1[i]));
        }
    }
}

/// Digits, a `.` and digits form a plain number.
proof fn lemma_point_number(h: Seq<char>, t: Seq<char>)
    requires
        h.len() > 0,
        all_digits(h),
        all_digits(t),
    ensures
        plain_body(h + seq!['.'] + t),
        (h + seq!['.'] + t).contains('.'),
        fraction_len(h + seq!['.'] + t) == t.len(),
        digits_value(h + seq!['.'] + t) == digits_value(h) * pow10(t.len()) + digits_value(t),
{
    let a = h + seq!['.'];
    let s = a + t;
    assert(a[h.len() as int] == '.');
    assert(a.contains('.'));
    assert(a.drop_last() =~= h);
    assert(!h.contains('.')) by {
        if h.contains('.') {
            let i = choose|i: int| 0 <= i < h.len() && h[i] == '.';
            assert(is_digit(h[i]));
        }
    }
    lemma_no_point_fraction(h);
    assert(fraction_len(a) == 0);
    lemma_fraction_len_concat(a, t);
    lemma_digits_value_concat(a, t);
    assert(digits_value(a) == digits_value(h));
    assert(s[h.len() as int] == '.');
    assert(s.contains('.'));
    assert forall|i: int| 0 <= i < s.len() implies is_digit(#[trigger] s[i]) || s[i] == '.' by {
        if i < h.len() {
            assert(s[i] == h[i]);
        } else if i > h.len() {
            assert(s[i] == t[i - h.len() - 1]);
        }
    }
    assert forall|i: int, j: int| 0 <= i < j < s.len() && #[trigger] s[i] == '.' implies #[trigger] s[j]
        != '.' by {
        if i < h.len() {
            assert(s[i] == h[i]);
            assert(is_digit(h[i]));
        } else {
            assert(j > h.len());
            assert(s[j] == t[j - h.len() - 1]);
            assert(is_digit(t[j - h.len() - 1]));
        }
    }
    assert(is_digit(s[0])) by {
        assert(s[0] == h[0]);
    }
}

/// Digits alone form a plain number without a fractional part.
proof fn lemma_digit_number(s: Seq<char>)
    requires
        s.len() > 0,
        all_digits(s),
    ensures
        plain_body(s),
        !s.contains('.'),
        fraction_len(s) == 0,
{
    assert(!s.contains('.')) by {
        if s.contains('.') {
            let i = choose|i: int| 0 <= i < s.len() && s[i] == '.';
            assert(is_digit(s[i]));
        }
    }
    lemma_no_point_fraction(s);
    assert(is_digit(s[0]));
}

/// The padded digits `unsigned_text` splits at the point.
pub open spec fn padded_digits(magnitude: nat, scale: nat) -> Seq<char> {
    let d = digits_of(magnitude);
    if d.len() < scale {
        zeros((scale - d.len()) as nat) + d
    } else {
        d
    }
}

proof fn lemma_padded_digits(magnitude: nat, scale: nat)
    ensures
        all_digits(padded_digits(magnitude, scale)),
        digits_value(padded_digits(magnitude, scale)) == magnitude,
        padded_digits(magnitude, scale).len() >= scale,
        padded_digits(magnitude, scale).len() == if digits_of(magnitude).len() < scale {
            scale
        } else {
            digits_of(magnitude).len()
        },
{
    let d = digits_of(magnitude);
    lemma_digits_of(magnitude);
    if d.len() < scale {
        let z = zeros((scale - d.len()) as nat);
        lemma_zeros((scale - d.len()) as nat);
        lemma_digits_value_concat(z, d);
        let p = z + d;
        assert forall|i: int| 0 <= i < p.len() implies is_digit(#[trigger] p[i]) by {
            if i < z.len() {
                assert(p[i] == z[i]);
            } else {
                assert(p[i] == d[i - z.len()]);
            }
        }
    }
}

/// `unsigned_text` is a plain number with the magnitude's digits and `scale`
/// fractional digits; it has a `.` exactly when the scale is positive.
pub proof fn lemma_unsigned_text(magnitude: nat, scale: nat)
    ensures
        plain_body(unsigned_text(magnitude, scale)),
        digits_value(unsigned_text(magnitude, scale)) == magnitude,
        fraction_len(unsigned_text(magnitude, scale)) == scale,
        unsigned_text(magnitude, scale).contains('.') <==> scale > 0,
        is_digit(unsigned_text(magnitude, scale)[0]),
        scale == 0 ==> all_digits(unsigned_text(magnitude, scale)),
        scale > 0 ==> exists|h: Seq<char>, t: Seq<char>|
            h.len() > 0 && all_digits(h) && all_digits(t) && unsigned_text(magnitude, scale) == h
                + seq!['.'] + t && #[trigger] fraction_len(h + seq!['.'] + t) == t.len(),
        unsigned_text(magnitude, scale).len() <= padded_digits(magnitude, scale).len() + 2,
{
    let p = padded_digits(magnitude, scale);
    lemma_padded_digits(magnitude, scale);
    let u = unsigned_text(magnitude, scale);
    if scale == 0 {
        if p.len() == 0 {
            assert(u == seq!['0']);
            assert(digits_value(seq!['0']) == digits_value(Seq::<char>::empty()) * 10 + digit_value(
                '0',
            )) by {
                assert(seq!['0'].drop_last() =~= Seq::<char>::empty());
            }
            assert(all_digits(u));
            lemma_digit_number(u);
        } else {
            assert(u == p);
            lemma_digit_number(u);
        }
    } else {
        let w = p.len() - scale;
        let t = p.skip(w);
        let h = if w == 0 {
            seq!['0']
        } else {
            p.take(w)
        };
        assert(u == h + seq!['.'] + t);
        assert(all_digits(h)) by {
            if w > 0 {
                assert forall|i: int| 0 <= i < h.len() implies is_digit(#[trigger] h[i]) by {
                    assert(h[i] == p[i]);
                }
            }
        }
        assert forall|i: int| 0 <= i < t.len() implies is_digit(#[trigger] t[i]) by {
            assert(t[i] == p[i + w]);
        }
        lemma_point_number(h, t);
        lemma_digits_value_concat(p.take(w), t);
        assert(p.take(w) + t =~= p);
        if w == 0 {
            assert(p.take(0) =~= Seq::<char>::empty());
            assert(digits_value(seq!['0']) == 0) by {
                assert(seq!['0'].drop_last() =~= Seq::<char>::empty());
            }
        }
        assert(is_digit(u[0])) by {
            assert(u[0] == h[0]);
        }
        assert(fraction_len(h + seq!['.'] + t) == t.len());
    }
}

/// What reading `decimal_text(d)` as a plain number gives: `d`'s mantissa and
/// scale.
pub proof fn lemma_decimal_text(d: Decimal)
    requires
        d.wf(),
    ensures
        plain_number(decimal_text(d)),
        plain_mantissa(decimal_text(d)) == d.mantissa,
        plain_scale(decimal_text(d)) == d.scale,
        unsigned_part(decimal_text(d)) == unsigned_text(abs_int(d.mantissa as int), d.scale as nat),
        decimal_text(d).len() <= 32,
        decimal_text(d).len() > 0,
        forall|i: int|
            0 <= i < decimal_text(d).len() ==> is_digit(#[trigger] decimal_text(d)[i])
                || decimal_text(d)[i] == '.' || decimal_text(d)[i] == '-',
{
    let a = abs_int(d.mantissa as int);
    let u = unsigned_text(a, d.scale as nat);
    lemma_unsigned_text(a, d.scale as nat);
    let s = decimal_text(d);
    assert(a <= MAX_MANTISSA);
    assert(pow10(29) == 100000000000000000000000000000nat) by {
        reveal_with_fuel(pow10, 30);
    }
    lemma_digits_of_short(a, 29);
    lemma_padded_digits(a, d.scale as nat);
    assert forall|i: int| 0 <= i < u.len() implies is_digit(#[trigger] u[i]) || u[i] == '.' by {
    }
    if d.mantissa < 0 {
        assert(s == seq!['-'] + u);
        assert(has_sign(s));
        assert(s.drop_first() =~= u);
        assert forall|i: int| 0 <= i < s.len() implies is_digit(#[trigger] s[i]) || s[i] == '.'
            || s[i] == '-' by {
            if i > 0 {
                assert(s[i] == u[i - 1]);
            }
        }
    } else {
        assert(s == u);
        assert(!has_sign(s));
    }
}

/// `decimal_text(d)` followed by `k` more fractional zeros.
pub open spec fn padded_decimal_text(d: Decimal, k: nat) -> Seq<char> {
    decimal_text(d) + (if d.scale == 0 {
        seq!['.']
    } else {
        Seq::empty()
    }) + zeros(k)
}

/// Padding with `k` fractional zeros keeps the value: the mantissa read back
/// is scaled by `10^k` and the scale grows by `k`.
pub proof fn lemma_padded_decimal_text(d: Decimal, k: nat)
    requires
        d.wf(),
        k > 0,
    ensures
        plain_number(padded_decimal_text(d, k)),
        plain_mantissa(padded_decimal_text(d, k)) == d.mantissa * pow10(k),
        plain_scale(padded_decimal_text(d, k)) == d.scale + k,
        padded_decimal_text(d, k).len() <= 33 + k,
        forall|i: int|
            0 <= i < padded_decimal_text(d, k).len() ==> is_digit(
                #[trigger] padded_decimal_text(d, k)[i],
            ) || padded_decimal_text(d, k)[i] == '.' || padded_decimal_text(d, k)[i] == '-',
{
    let dt = decimal_text(d);
    lemma_decimal_text(d);
    let a = abs_int(d.mantissa as int);
    let u = unsigned_text(a, d.scale as nat);
    lemma_unsigned_text(a, d.scale as nat);
    let extra = (if d.scale == 0 {
        seq!['.']
    } else {
        Seq::<char>::empty()
    }) + zeros(k);
    let t = padded_decimal_text(d, k);
    assert(t =~= dt + extra);
    lemma_zeros(k);
    // the sign is unchanged and the unsigned part gains the padding
    assert(t[0] == dt[0]);
    assert(has_sign(t) == has_sign(dt));
    assert(unsigned_part(t) =~= unsigned_part(dt) + extra);
    assert(unsigned_part(dt) == u);
    let u2 = u + extra;
    if d.scale == 0 {
        assert(all_digits(u));
        assert(u2 =~= u + seq!['.'] + zeros(k));
        lemma_point_number(u, zeros(k));
        assert(u.len() > 0);
    } else {
        let (h, tl) = choose|h: Seq<char>, tl: Seq<char>|
            h.len() > 0 && all_digits(h) && all_digits(tl) && u == h + seq!['.'] + tl
                && #[trigger] fraction_len(h + seq!['.'] + tl) == tl.len();
        let tz = tl + zeros(k);
        assert forall|i: int| 0 <= i < tz.len() implies is_digit(#[trigger] tz[i]) by {
            if i < tl.len() {
                assert(tz[i] == tl[i]);
            } else {
                assert(tz[i] == zeros(k)[i - tl.len()]);
            }
        }
        assert(extra =~= zeros(k));
        assert(u2 =~= h + seq!['.'] + tz);
        lemma_point_number(h, tz);
        lemma_point_number(h, tl);
        lemma_digits_value_concat(tl, zeros(k));
        lemma_pow10_add(tl.len(), k);
        let x = digits_value(h);
        let y = digits_value(tl);
        let p = pow10(tl.len());
        let q = pow10(k);
        assert(x * (p * q) + y * q == (x * p + y) * q) by (nonlinear_arith);
    }
    assert(digits_value(u2) == a * pow10(k));
    assert(fraction_len(u2) == d.scale + k);
    if d.mantissa < 0 {
        assert(t[0] == '-');
        assert(plain_mantissa(t) == -(a * pow10(k)));
        assert(-(a * pow10(k)) == d.mantissa * pow10(k)) by (nonlinear_arith)
            requires
                a == -d.mantissa,
        ;
    } else {
        assert(t[0] != '-') by {
            assert(is_digit(u[0]));
        }
    }
    assert forall|i: int| 0 <= i < t.len() implies is_digit(#[trigger] t[i]) || t[i] == '.' || t[i]
        == '-' by {
        if i < dt.len() {
            assert(t[i] == dt[i]);
        } else {
            assert(t[i] == extra[i - dt.len()]);
            if d.scale == 0 && i == dt.len() {
            } else if d.scale == 0 {
                assert(extra[i - dt.len()] == zeros(k)[i - dt.len() - 1]);
            } else {
                assert(extra[i - dt.len()] == zeros(k)[i - dt.len()]);
            }
        }
    }
}

/// Two normalized decimals of the same value are the same decimal.
pub proof fn lemma_normalized_unique(a: Decimal, b: Decimal)
    requires
        a.is_normalized(),
        b.is_normalized(),
        a.same_value(b),
    ensures
        a == b,
{
    if a.scale <= b.scale {
        lemma_normalized_unique_ordered(a, b);
    } else {
        lemma_normalized_unique_ordered(b, a);
    }
}

proof fn lemma_normalized_unique_ordered(a: Decimal, b: Decimal)
    requires
        a.is_normalized(),
        b.is_normalized(),
        a.same_value(b),
        a.scale <= b.scale,
    ensures
        a == b,
{
    let k = (b.scale - a.scale) as nat;
    lemma_pow10_add(a.scale as nat, k);
    lemma_pow10_pos(a.scale as nat);
    let pa = pow10(a.scale as nat);
    let pk = pow10(k);
    assert(a.mantissa * (pa * pk) == b.mantissa * pa);
    assert(a.mantissa * pk == b.mantissa) by (nonlinear_arith)
        requires
            a.mantissa * (pa * pk) == b.mantissa * pa,
            pa > 0,
    ;
    if k > 0 {
        assert(pk == 10 * pow10((k - 1) as nat));
        assert(b.mantissa == (a.mantissa * pow10((k - 1) as nat)) * 10) by (nonlinear_arith)
            requires
                a.mantissa * pk == b.mantissa,
                pk == 10 * pow10((k - 1) as nat),
        ;
        assert(b.mantissa % 10 == 0);
        assert(b.scale > 0);
        assert(false);
    } else {
        assert(pk == 1);
        assert(a.mantissa * pk == a.mantissa) by (nonlinear_arith)
            requires
                pk == 1,
        ;
        assert(a.mantissa == b.mantissa);
        assert(a.scale == b.scale);
    }
}

/// Normalizing depends on the value alone: two decimals of the same value
/// normalize to the same decimal, whatever their scales.
pub proof fn law_normalize_depends_on_value(a: Decimal, b: Decimal)
    requires
        a.wf(),
        b.wf(),
        a.same_value(b),
    ensures
        a.normalized() == b.normalized(),
{
    lemma_normalize(a.mantissa as int, a.scale as nat);
    lemma_normalize(b.mantissa as int, b.scale as nat);
    let na = a.normalized();
    let nb = b.normalized();
    lemma_same_value_trans(na, a, b);
    lemma_same_value_trans(na, b, nb);
    lemma_normalized_unique(na, nb);
}

/// Having the same value is transitive.
pub proof fn lemma_same_value_trans(a: Decimal, b: Decimal, c: Decimal)
    requires
        a.same_value(b),
        b.same_value(c) || c.same_value(b),
    ensures
        a.same_value(c),
{
    let pa = pow10(a.scale as nat);
    let pb = pow10(b.scale as nat);
    let pc = pow10(c.scale as nat);
    lemma_pow10_pos(b.scale as nat);
    assert(a.mantissa * pc == c.mantissa * pa) by (nonlinear_arith)
        requires
            a.mantissa * pb == b.mantissa * pa,
            b.mantissa * pc == c.mantissa * pb,
            pb > 0,
    {
        assert(a.mantissa * pc * pb == b.mantissa * pa * pc);
        assert(c.mantissa * pa * pb == b.mantissa * pc * pa);
    }
}

/// Two decimals with the exact value of one plain number have the same value.
pub proof fn lemma_denotes_same_value(a: Decimal, b: Decimal, s: Seq<char>)
    requires
        denotes(a, s),
        denotes(b, s),
    ensures
        a.same_value(b),
{
    let ps = pow10(plain_scale(s));
    let pa = pow10(a.scale as nat);
    let pb = pow10(b.scale as nat);
    let pm = plain_mantissa(s);
    lemma_pow10_pos(plain_scale(s));
    assert(a.mantissa * pb == b.mantissa * pa) by (nonlinear_arith)
        requires
            a.mantissa * ps == pm * pa,
            b.mantissa * ps == pm * pb,
            ps > 0,
    {
        assert(a.mantissa * pb * ps == pm * pa * pb);
        assert(b.mantissa * pa * ps == pm * pb * pa);
    }
}

// ---------------------------------------------------------------------------
// Arithmetic through rust_decimal
// ---------------------------------------------------------------------------

/// The larger of the two scales.
pub open spec fn common_scale(a: Decimal, b: Decimal) -> nat {
    if a.scale >= b.scale {
        a.scale as nat
    } else {
        b.scale as nat
    }
}

/// The mantissa of `d` written at scale `s` (at least `d`'s scale).
pub open spec fn aligned(d: Decimal, s: nat) -> int {
    d.mantissa * pow10((s - d.scale) as nat)
}

/// This mantissa and scale fit the model.
pub open spec fn fits_model(mantissa: int, scale: nat) -> bool {
    -MAX_MANTISSA <= mantissa <= MAX_MANTISSA && scale <= MAX_SCALE
}

/// The decimal with this mantissa and scale, when they fit the model.
pub open spec fn exact(mantissa: int, scale: nat) -> Decimal {
    Decimal { mantissa: mantissa as i128, scale: scale as u32 }
}

/// The decimal of value `mantissa / 10^scale` with its trailing zeros stripped.
pub open spec fn exact_normalized(mantissa: int, scale: nat) -> Decimal {
    let (m, s) = spec_normalize(mantissa, scale);
    exact(m, s)
}

/// Some decimal of the model has the value `mantissa / 10^scale`: with its
/// trailing zeros stripped it fits 96 bits at a scale of at most 28.
pub open spec fn value_fits(mantissa: int, scale: nat) -> bool {
    let (m, s) = spec_normalize(mantissa, scale);
    fits_model(m, s)
}

/// The mantissa of the exact sum at the larger scale.
pub open spec fn sum_mantissa(a: Decimal, b: Decimal) -> int {
    aligned(a, common_scale(a, b)) + aligned(b, common_scale(a, b))
}

/// The mantissa of the exact difference at the larger scale.
pub open spec fn difference_mantissa(a: Decimal, b: Decimal) -> int {
    aligned(a, common_scale(a, b)) - aligned(b, common_scale(a, b))
}

/// The exact sum, normalized.
pub open spec fn normalized_sum(a: Decimal, b: Decimal) -> Decimal {
    exact_normalized(sum_mantissa(a, b), common_scale(a, b))
}

/// The exact difference, normalized.
pub open spec fn normalized_difference(a: Decimal, b: Decimal) -> Decimal {
    exact_normalized(difference_mantissa(a, b), common_scale(a, b))
}

/// The exact product, normalized.
pub open spec fn normalized_product(a: Decimal, b: Decimal) -> Decimal {
    exact_normalized(a.mantissa * b.mantissa, (a.scale + b.scale) as nat)
}

/// The exact sum has a decimal in the model.
pub open spec fn sum_representable(a: Decimal, b: Decimal) -> bool {
    value_fits(sum_mantissa(a, b), common_scale(a, b))
}

/// The exact difference has a decimal in the model.
pub open spec fn difference_representable(a: Decimal, b: Decimal) -> bool {
    value_fits(difference_mantissa(a, b), common_scale(a, b))
}

/// The exact product has a decimal in the model.
pub open spec fn product_representable(a: Decimal, b: Decimal) -> bool {
    value_fits(a.mantissa * b.mantissa, (a.scale + b.scale) as nat)
}

/// A value that has a decimal in the model: that decimal is valid,
/// normalized, its own normalization, and has the value.
pub proof fn lemma_exact_normalized(m: int, s: nat)
    requires
        value_fits(m, s),
    ensures
        exact_normalized(m, s).wf(),
        exact_normalized(m, s).is_normalized(),
        exact_normalized(m, s).normalized() == exact_normalized(m, s),
        m * pow10(exact_normalized(m, s).scale as nat) == exact_normalized(m, s).mantissa * pow10(s),
{
    lemma_normalize(m, s);
    let (m2, s2) = spec_normalize(m, s);
    let d = exact_normalized(m, s);
    assert(d.mantissa == m2 && d.scale == s2);
    if m2 == 0 {
        assert(spec_normalize(m2, s2) == (0int, 0nat));
    } else {
        assert(spec_normalize(m2, s2) == (m2, s2));
    }
}

/// Two normalized mantissa and scale pairs of the same value are the same pair.
pub proof fn lemma_normal_pairs_equal(m1: int, s1: nat, m2: int, s2: nat)
    requires
        m1 == 0 ==> s1 == 0,
        s1 > 0 ==> m1 % 10 != 0,
        m2 == 0 ==> s2 == 0,
        s2 > 0 ==> m2 % 10 != 0,
        m1 * pow10(s2) == m2 * pow10(s1),
    ensures
        m1 == m2,
        s1 == s2,
    decreases (if s1 > s2 {
        1nat
    } else {
        0nat
    }),
{
    if s1 > s2 {
        lemma_normal_pairs_equal(m2, s2, m1, s1);
    } else {
        let k = (s2 - s1) as nat;
        lemma_pow10_add(s1, k);
        assert((s1 + k) as nat == s2);
        lemma_pow10_pos(s1);
        let p1 = pow10(s1);
        let pk = pow10(k);
        assert(m1 * pk == m2) by (nonlinear_arith)
            requires
                m1 * (p1 * pk) == m2 * p1,
                p1 > 0,
        ;
        if k > 0 {
            assert(pk == 10 * pow10((k - 1) as nat));
            assert(m2 == (m1 * pow10((k - 1) as nat)) * 10) by (nonlinear_arith)
                requires
                    m1 * pk == m2,
                    pk == 10 * pow10((k - 1) as nat),
            ;
            assert(m2 % 10 == 0);
            if m2 == 0 {
                assert(s2 == 0);
            }
        } else {
            assert(pk == 1);
            assert(m1 * pk == m1) by (nonlinear_arith)
                requires
                    pk == 1,
            ;
        }
    }
}

/// Where the exact sum of `a` and `b` has a decimal in the model, the exact
/// difference of that normalized sum and `b` has one too, and it is `a`.
pub proof fn lemma_difference_undoes_sum(a: Decimal, b: Decimal)
    requires
        a.wf(),
        b.wf(),
        a.is_normalized(),
        sum_representable(a, b),
    ensures
        difference_representable(normalized_sum(a, b), b),
        normalized_difference(normalized_sum(a, b), b) == a,
{
    let cs = common_scale(a, b);
    let big_a = aligned(a, cs);
    let big_b = aligned(b, cs);
    let m = sum_mantissa(a, b);
    assert(m == big_a + big_b);
    lemma_normalize(m, cs);
    lemma_exact_normalized(m, cs);
    let n = normalized_sum(a, b);
    assert(n.scale <= cs);
    let c2 = common_scale(n, b);
    assert(c2 <= cs);
    let k = (cs - c2) as nat;
    let e = pow10(n.scale as nat);
    let f = pow10((cs - n.scale) as nat);
    let g = pow10(k);
    let h = pow10((c2 - n.scale) as nat);
    let j = pow10((c2 - b.scale) as nat);
    let l = pow10((cs - b.scale) as nat);
    lemma_pow10_add((cs - n.scale) as nat, n.scale as nat);
    assert(((cs - n.scale) as nat + n.scale as nat) as nat == cs);
    lemma_pow10_add((c2 - n.scale) as nat, k);
    assert(((c2 - n.scale) as nat + k) as nat == (cs - n.scale) as nat);
    lemma_pow10_add((c2 - b.scale) as nat, k);
    assert(((c2 - b.scale) as nat + k) as nat == (cs - b.scale) as nat);
    lemma_pow10_pos(n.scale as nat);
    lemma_pow10_pos(k);
    assert(pow10(cs) == f * e);
    assert(f == h * g);
    assert(l == j * g);
    assert(big_b == b.mantissa * l);
    assert((big_a + big_b) * e == n.mantissa * pow10(cs));
    assert(big_a + big_b == n.mantissa * f) by (nonlinear_arith)
        requires
            (big_a + big_b) * e == n.mantissa * (f * e),
            e > 0,
    ;
    let d = difference_mantissa(n, b);
    assert(d == aligned(n, c2) - aligned(b, c2));
    assert(aligned(n, c2) == n.mantissa * h);
    assert(aligned(b, c2) == b.mantissa * j);
    assert(d * g == big_a) by (nonlinear_arith)
        requires
            d == n.mantissa * h - b.mantissa * j,
            big_a + big_b == n.mantissa * f,
            f == h * g,
            big_b == b.mantissa * l,
            l == j * g,
    ;
    // d at scale c2 has the value of a
    let pas = pow10(a.scale as nat);
    let pc2 = pow10(c2);
    let pcsa = pow10((cs - a.scale) as nat);
    lemma_pow10_add((cs - a.scale) as nat, a.scale as nat);
    assert(((cs - a.scale) as nat + a.scale as nat) as nat == cs);
    lemma_pow10_add(c2, k);
    assert((c2 + k) as nat == cs);
    assert(big_a == a.mantissa * pcsa);
    assert(d * pas == a.mantissa * pc2) by (nonlinear_arith)
        requires
            d * g == big_a,
            big_a == a.mantissa * pcsa,
            pcsa * pas == pc2 * g,
            g > 0,
    {
        assert(d * pas * g == a.mantissa * pc2 * g);
    }
    // its normalization is a
    lemma_normalize(d, c2);
    let (m3, s3) = spec_normalize(d, c2);
    let p3 = pow10(s3);
    lemma_pow10_pos(c2);
    assert(d * p3 == m3 * pc2);
    assert(m3 * pas == a.mantissa * p3) by (nonlinear_arith)
        requires
            d * p3 == m3 * pc2,
            d * pas == a.mantissa * pc2,
            pc2 > 0,
    {
        assert(m3 * pas * pc2 == a.mantissa * p3 * pc2);
    }
    lemma_normal_pairs_equal(m3, s3, a.mantissa as int, a.scale as nat);
    assert(normalized_difference(n, b) == exact_normalized(d, c2));
}

/// The decimal in the model of the value of mantissa `t` at scale `s` has a
/// scale of at most `s`, and written back at scale `s` its mantissa is `t`.
pub proof fn lemma_normalized_at_scale(t: int, s: nat)
    requires
        value_fits(t, s),
    ensures
        exact_normalized(t, s).wf(),
        exact_normalized(t, s).is_normalized(),
        exact_normalized(t, s).scale <= s,
        exact_normalized(t, s).mantissa * pow10((s - exact_normalized(t, s).scale) as nat) == t,
{
    lemma_normalize(t, s);
    lemma_exact_normalized(t, s);
    let n = exact_normalized(t, s);
    let k = (s - n.scale) as nat;
    lemma_pow10_add(k, n.scale as nat);
    assert((k + n.scale as nat) as nat == s);
    lemma_pow10_pos(n.scale as nat);
    let e = pow10(n.scale as nat);
    let f = pow10(k);
    assert(t * e == n.mantissa * (f * e));
    assert(n.mantissa * f == t) by (nonlinear_arith)
        requires
            t * e == n.mantissa * (f * e),
            e > 0,
    ;
}

/// Two decimals whose mantissas, written at scale `s`, are `t1` and `t2` add
/// exactly when the value of `t1 + t2` at scale `s` has a decimal in the
/// model: their normalized exact sum is that decimal.
pub proof fn lemma_exact_sum_of_totals(n1: Decimal, n2: Decimal, t1: int, t2: int, s: nat)
    requires
        n1.scale <= s,
        n2.scale <= s,
        s <= MAX_SCALE,
        n1.mantissa * pow10((s - n1.scale) as nat) == t1,
        n2.mantissa * pow10((s - n2.scale) as nat) == t2,
        value_fits(t1 + t2, s),
    ensures
        sum_representable(n1, n2),
        normalized_sum(n1, n2) == exact_normalized(t1 + t2, s),
{
    let cs = common_scale(n1, n2);
    let k = (s - cs) as nat;
    let g = pow10(k);
    lemma_pow10_pos(k);
    lemma_pow10_add((cs - n1.scale) as nat, k);
    assert(((cs - n1.scale) as nat + k) as nat == (s - n1.scale) as nat);
    lemma_pow10_add((cs - n2.scale) as nat, k);
    assert(((cs - n2.scale) as nat + k) as nat == (s - n2.scale) as nat);
    let a1 = aligned(n1, cs);
    let a2 = aligned(n2, cs);
    let p1 = pow10((cs - n1.scale) as nat);
    let p2 = pow10((cs - n2.scale) as nat);
    assert(a1 == n1.mantissa * p1);
    assert(a2 == n2.mantissa * p2);
    let x = sum_mantissa(n1, n2);
    assert(x == a1 + a2);
    let t = t1 + t2;
    assert(x * g == t) by (nonlinear_arith)
        requires
            x == a1 + a2,
            t == t1 + t2,
            a1 == n1.mantissa * p1,
            a2 == n2.mantissa * p2,
            n1.mantissa * (p1 * g) == t1,
            n2.mantissa * (p2 * g) == t2,
    ;
    lemma_pow10_add(cs, k);
    assert((cs + k) as nat == s);
    let pc = pow10(cs);
    lemma_pow10_pos(cs);
    lemma_normalize(x, cs);
    lemma_normalize(t, s);
    let (mx, sx) = spec_normalize(x, cs);
    let (mt, st) = spec_normalize(t, s);
    let px = pow10(sx);
    let pt = pow10(st);
    assert(x * px == mx * pc);
    assert(t * pt == mt * pow10(s));
    assert(mx * pt == mt * px) by (nonlinear_arith)
        requires
            x * g == t,
            x * px == mx * pc,
            t * pt == mt * (pc * g),
            pc > 0,
            g > 0,
    {
        assert(x * pt * g == mt * pc * g);
        assert(x * pt == mt * pc);
        assert(mx * pc * pt == x * px * pt);
        assert(mx * pt * pc == mt * px * pc);
    }
    lemma_normal_pairs_equal(mx, sx, mt, st);
}

/// What `rust_decimal::Decimal::checked_add` gives.
pub uninterp spec fn decimal_sum(a: Decimal, b: Decimal) -> Option<Decimal>;

/// What `rust_decimal::Decimal::checked_sub` gives.
pub uninterp spec fn decimal_difference(a: Decimal, b: Decimal) -> Option<Decimal>;

/// What `rust_decimal::Decimal::checked_mul` gives.
pub uninterp spec fn decimal_product(a: Decimal, b: Decimal) -> Option<Decimal>;

/// What `rust_decimal::Decimal::checked_div` gives.
pub uninterp spec fn decimal_quotient(a: Decimal, b: Decimal) -> Option<Decimal>;

/// `rust_decimal::Decimal::checked_add`. Trusted: the result fits the model.
/// When the exact sum has a decimal in the model, the result has the exact
/// sum's value: its source adds exactly in up to 192 bits and then drops only
/// as many trailing digits as it needs to fit 96 bits and a scale of 28, which
/// are zeros there, so nothing is rounded. Two integers (scale 0) whose sum
/// does not fit 96 bits give none. Otherwise its value (rounded to fit, or
/// none) is left to the name.
#[verifier::external_body]
pub(crate) fn checked_add(a: Decimal, b: Decimal) -> (r: Option<Decimal>)
    requires
        a.wf(),
        b.wf(),
    ensures
        r == decimal_sum(a, b),
        r matches Some(d) ==> d.wf(),
        sum_representable(a, b) ==> r is Some && r->0.same_value(normalized_sum(a, b)),
        a.scale == 0 && b.scale == 0 && !fits_model(a.mantissa + b.mantissa, 0) ==> r is None,
{
    let x = rust_decimal::Decimal::from_i128_with_scale(a.mantissa, a.scale);
    let y = rust_decimal::Decimal::from_i128_with_scale(b.mantissa, b.scale);
    x.checked_add(y).map(|d| Decimal { mantissa: d.mantissa(), scale: d.scale() })
}

/// `rust_decimal::Decimal::checked_sub`. Trusted, as for `checked_add`: the
/// result fits the model; when the exact difference has a decimal in the
/// model, the result has its value; two integers whose difference does not
/// fit 96 bits give none. Otherwise its value is left to the name.
#[verifier::external_body]
pub(crate) fn checked_sub(a: Decimal, b: Decimal) -> (r: Option<Decimal>)
    requires
        a.wf(),
        b.wf(),
    ensures
        r == decimal_difference(a, b),
        r matches Some(d) ==> d.wf(),
        difference_representable(a, b) ==> r is Some && r->0.same_value(
            normalized_difference(a, b),
        ),
        a.scale == 0 && b.scale == 0 && !fits_model(a.mantissa - b.mantissa, 0) ==> r is None,
{
    let x = rust_decimal::Decimal::from_i128_with_scale(a.mantissa, a.scale);
    let y = rust_decimal::Decimal::from_i128_with_scale(b.mantissa, b.scale);
    x.checked_sub(y).map(|d| Decimal { mantissa: d.mantissa(), scale: d.scale() })
}

/// `rust_decimal::Decimal::checked_mul`. Trusted: the result fits the model.
/// When the exact product (mantissas multiplied, scales added) has a decimal
/// in the model, the result has its value: its source multiplies exactly and
/// then drops only as many trailing digits as it needs to fit 96 bits and a
/// scale of 28, which are zeros there. Two integers whose product does not fit
/// 96 bits give none. Otherwise its value is left to the name.
#[verifier::external_body]
pub(crate) fn checked_mul(a: Decimal, b: Decimal) -> (r: Option<Decimal>)
    requires
        a.wf(),
        b.wf(),
    ensures
        r == decimal_product(a, b),
        r matches Some(d) ==> d.wf(),
        product_representable(a, b) ==> r is Some && r->0.same_value(normalized_product(a, b)),
        a.scale == 0 && b.scale == 0 && !fits_model(a.mantissa * b.mantissa, 0) ==> r is None,
{
    let x = rust_decimal::Decimal::from_i128_with_scale(a.mantissa, a.scale);
    let y = rust_decimal::Decimal::from_i128_with_scale(b.mantissa, b.scale);
    x.checked_mul(y).map(|d| Decimal { mantissa: d.mantissa(), scale: d.scale() })
}

/// `rust_decimal::Decimal::checked_div`. Trusted: a zero divisor gives `None`
/// (its first check), and a result fits the model; the quotient's value is not
/// described.
#[verifier::external_body]
pub(crate) fn checked_div(a: Decimal, b: Decimal) -> (r: Option<Decimal>)
    requires
        a.wf(),
        b.wf(),
    ensures
        r == decimal_quotient(a, b),
        b.mantissa == 0 ==> r is None,
        r matches Some(d) ==> d.wf(),
{
    let x = rust_decimal::Decimal::from_i128_with_scale(a.mantissa, a.scale);
    let y = rust_decimal::Decimal::from_i128_with_scale(b.mantissa, b.scale);
    x.checked_div(y).map(|d| Decimal { mantissa: d.mantissa(), scale: d.scale() })
}

/// `a` is numerically below `b`.
pub open spec fn value_lt(a: Decimal, b: Decimal) -> bool {
    a.mantissa * pow10(b.scale as nat) < b.mantissa * pow10(a.scale as nat)
}

/// Numeric three-way comparison through `rust_decimal::Decimal`'s `Ord`,
/// which orders by value: -1, 0 or 1.
#[verifier::external_body]
pub(crate) fn decimal_order(a: Decimal, b: Decimal) -> (r: i8)
    requires
        a.wf(),
        b.wf(),
    ensures
        r == 0 <==> a.same_value(b),
        r < 0 <==> value_lt(a, b),
        r > 0 <==> value_lt(b, a),
        -1 <= r <= 1,
{
    let x = rust_decimal::Decimal::from_i128_with_scale(a.mantissa, a.scale);
    let y = rust_decimal::Decimal::from_i128_with_scale(b.mantissa, b.scale);
    match x.cmp(&y) {
        std::cmp::Ordering::Less => -1,
        std::cmp::Ordering::Equal => 0,
        std::cmp::Ordering::Greater => 1,
    }
}

/// Midpoint rounding rules of `rust_decimal::RoundingStrategy` that the
/// library uses.
#[derive(Clone, Copy, Debug, PartialEq, Eq, Structural)]
pub enum Rounding {
    MidpointAwayFromZero,
    MidpointTowardZero,
    MidpointNearestEven,
    ToZero,
}

/// Rounding to `dp` fractional digits: the magnitude is divided by
/// `10^(scale - dp)` and the quotient raised by one as the rule says.
pub open spec fn spec_round_dp(d: Decimal, dp: nat, rule: Rounding) -> Decimal {
    if d.scale <= dp {
        d
    } else {
        let k = (d.scale - dp) as nat;
        let a = abs_int(d.mantissa as int);
        let q = a / pow10(k);
        let r = a % pow10(k);
        let half = 5 * pow10((k - 1) as nat);
        let up = match rule {
            Rounding::MidpointAwayFromZero => r >= half,
            Rounding::MidpointTowardZero => r > half,
            Rounding::MidpointNearestEven => r > half || (r == half && q % 2 == 1),
            Rounding::ToZero => false,
        };
        let q2: int = if up {
            q as int + 1
        } else {
            q as int
        };
        Decimal { mantissa: (if d.mantissa < 0 { -q2 } else { q2 }) as i128, scale: dp as u32 }
    }
}

/// `rust_decimal::Decimal::round_dp_with_strategy`. Trusted: the result is
/// the unchanged decimal when its scale is at most `dp`, and otherwise the
/// magnitude divided by `10^(scale - dp)` rounded up by one as the strategy
/// says at scale `dp`, with the sign kept; the result fits the model.
#[verifier::external_body]
pub(crate) fn round_dp(d: Decimal, dp: u32, rule: Rounding) -> (r: Decimal)
    requires
        d.wf(),
    ensures
        r == spec_round_dp(d, dp as nat, rule),
        r.wf(),
{
    let x = rust_decimal::Decimal::from_i128_with_scale(d.mantissa, d.scale);
    let strategy = match rule {
        Rounding::MidpointAwayFromZero => rust_decimal::RoundingStrategy::MidpointAwayFromZero,
        Rounding::MidpointTowardZero => rust_decimal::RoundingStrategy::MidpointTowardZero,
        Rounding::MidpointNearestEven => rust_decimal::RoundingStrategy::MidpointNearestEven,
        Rounding::ToZero => rust_decimal::RoundingStrategy::ToZero,
    };
    let y = x.round_dp_with_strategy(dp, strategy);
    Decimal { mantissa: y.mantissa(), scale: y.scale() }
}

/// The message `rust_decimal::Decimal::try_from_i128_with_scale` gives when
/// it refuses parts.
pub uninterp spec fn decimal_parts_error(mantissa: i128, scale: u32) -> Seq<char>;

/// `rust_decimal::Decimal::try_from_i128_with_scale`. Trusted: it succeeds
/// exactly when the scale is at most 28 and the mantissa fits 96 bits, and
/// then keeps both parts.
#[verifier::external_body]
pub(crate) fn decimal_from_parts(mantissa: i128, scale: u32) -> (r: Result<Decimal, String>)
    ensures
        r is Ok <==> (scale <= MAX_SCALE && -MAX_MANTISSA <= mantissa <= MAX_MANTISSA),
        r matches Ok(d) ==> d == (Decimal { mantissa, scale }),
        r matches Err(e) ==> e@ == decimal_parts_error(mantissa, scale),
{
    match rust_decimal::Decimal::try_from_i128_with_scale(mantissa, scale) {
        Ok(d) => Ok(Decimal { mantissa: d.mantissa(), scale: d.scale() }),
        Err(e) => Err(e.to_string()),
    }
}

} // verus!
