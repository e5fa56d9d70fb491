//! The currency catalog: every ISO-4217 currency that rusty-money knows under a
//! three-letter upper-case code, plus its fourteen crypto currencies, sorted by
//! code so that a lookup is a binary search.
use crate::text::{chars_of, compare_chars, lemma_lex_total, lemma_lex_trans, lex_lt};
use vstd::prelude::*;

verus! {

/// Regions with their own formatting conventions.
#[derive(Clone, Copy, Debug, PartialEq, Eq, Structural)]
pub enum Locale {
    EnUs,
    EnIn,
    EnEu,
    EnBy,
}

#[derive(Clone, Copy, Debug, PartialEq, Eq, Structural)]
pub enum CurrencyKind {
    Iso,
    Crypto,
}

impl CurrencyKind {
    pub open spec fn name_spec(self) -> Seq<char> {
        match self {
            CurrencyKind::Iso => "iso"@,
            CurrencyKind::Crypto => "crypto"@,
        }
    }

    pub fn as_str(self) -> (r: &'static str)
        ensures
            r@ == self.name_spec(),
    {
        match self {
            CurrencyKind::Iso => "iso",
            CurrencyKind::Crypto => "crypto",
        }
    }
}

/// The descriptor of one currency, with the metadata rusty-money gives it.
#[derive(Clone, Copy, Debug)]
pub struct Currency {
    pub code: &'static str,
    pub numeric_code: Option<&'static str>,
    pub exponent: u32,
    pub locale: Locale,
    pub minor_units: u64,
    pub name: &'static str,
    pub symbol: &'static str,
    pub symbol_first: bool,
    pub kind: CurrencyKind,
}

impl Currency {
    pub fn numeric_code(&self) -> (r: Option<&'static str>)
        ensures
            r == self.numeric_code,
    {
        self.numeric_code
    }

    pub fn minor_units(&self) -> (r: u64)
        ensures
            r == self.minor_units,
    {
        self.minor_units
    }

    pub fn name(&self) -> (r: &'static str)
        ensures
            r == self.name,
    {
        self.name
    }

    pub fn kind(&self) -> (r: CurrencyKind)
        ensures
            r == self.kind,
    {
        self.kind
    }

    pub fn code(&self) -> (r: &'static str)
        ensures
            r == self.code,
    {
        self.code
    }

    pub fn exponent(&self) -> (r: u32)
        ensures
            r == self.exponent,
    {
        self.exponent
    }

    pub fn locale(&self) -> (r: Locale)
        ensures
            r == self.locale,
    {
        self.locale
    }

    pub fn symbol(&self) -> (r: &'static str)
        ensures
            r == self.symbol,
    {
        self.symbol
    }

    pub fn symbol_first(&self) -> (r: bool)
        ensures
            r == self.symbol_first,
    {
        self.symbol_first
    }

    /// The currency's code as an owned string.
    pub fn to_string(&self) -> (r: String)
        ensures
            r@ == self.code@,
    {
        self.code.to_owned()
    }
}

/// What `rusty_money::iso::find` returns for a code.
pub uninterp spec fn iso_currency_for(code: Seq<char>) -> Option<Currency>;

/// What `rusty_money::crypto::find` returns for a code.
pub uninterp spec fn crypto_currency_for(code: Seq<char>) -> Option<Currency>;

/// Looks `code` up in rusty-money's ISO-4217 table (`rusty_money::iso::find`).
/// Trusted: the table maps each alphabetic code to the currency whose
/// `iso_alpha_code` is that code, and every table entry has an exponent of at
/// most 28; which codes the table holds is not stated.
#[verifier::external_body]
fn iso_find(code: &str) -> (r: Option<Currency>)
    ensures
        r == iso_currency_for(code@),
        r matches Some(c) ==> c.code@ == code@ && c.kind == CurrencyKind::Iso && c.numeric_code
            is Some && c.exponent <= 28,
{
    let c = rusty_money::iso::find(code)?;
    let locale = match c.locale {
        rusty_money::Locale::EnUs => Locale::EnUs,
        rusty_money::Locale::EnIn => Locale::EnIn,
        rusty_money::Locale::EnEu => Locale::EnEu,
        rusty_money::Locale::EnBy => Locale::EnBy,
    };
    Some(Currency {
        code: c.iso_alpha_code, numeric_code: Some(c.iso_numeric_code), exponent: c.exponent,
        locale, minor_units: c.minor_units, name: c.name, symbol: c.symbol,
        symbol_first: c.symbol_first, kind: CurrencyKind::Iso,
    })
}

/// Looks `code` up in rusty-money's crypto table (`rusty_money::crypto::find`).
/// Trusted: the table maps each code to the currency declared with that
/// code, and every entry has an exponent of at most 28; which codes the table
/// holds is not stated.
#[verifier::external_body]
fn crypto_find(code: &str) -> (r: Option<Currency>)
    ensures
        r == crypto_currency_for(code@),
        r matches Some(c) ==> c.code@ == code@ && c.kind == CurrencyKind::Crypto
            && c.numeric_code is None && c.exponent <= 28,
{
    let c = rusty_money::crypto::find(code)?;
    let locale = match c.locale {
        rusty_money::Locale::EnUs => Locale::EnUs,
        rusty_money::Locale::EnIn => Locale::EnIn,
        rusty_money::Locale::EnEu => Locale::EnEu,
        rusty_money::Locale::EnBy => Locale::EnBy,
    };
    Some(Currency {
        code: c.code, numeric_code: None, exponent: c.exponent, locale,
        minor_units: c.minor_units, name: c.name, symbol: c.symbol,
        symbol_first: c.symbol_first, kind: CurrencyKind::Crypto,
    })
}

/// The crypto currencies the catalog admits.
pub open spec fn crypto_codes() -> Seq<Seq<char>> {
    seq![
        "BCH"@,
        "BSV"@,
        "BTC"@,
        "COMP"@,
        "DAI"@,
        "ETH"@,
        "LTC"@,
        "MKR"@,
        "TRX"@,
        "UNI"@,
        "USDC"@,
        "USDT"@,
        "XTZ"@,
        "ZEC"@,
    ]
}

fn crypto_code_list() -> (r: Vec<&'static str>)
    ensures
        r@.len() == crypto_codes().len(),
        forall|i: int| 0 <= i < r@.len() ==> #[trigger] r@[i]@ == crypto_codes()[i],
{
    vec![
        "BCH",
        "BSV",
        "BTC",
        "COMP",
        "DAI",
        "ETH",
        "LTC",
        "MKR",
        "TRX",
        "UNI",
        "USDC",
        "USDT",
        "XTZ",
        "ZEC",
    ]
}

pub open spec fn is_upper_letter(c: char) -> bool {
    'A' <= c && c <= 'Z'
}

/// A three-letter upper-case code.
pub open spec fn is_iso_key(k: Seq<char>) -> bool {
    &&& k.len() == 3
    &&& is_upper_letter(k[0])
    &&& is_upper_letter(k[1])
    &&& is_upper_letter(k[2])
}

/// A currency the catalog holds: the ISO currency rusty-money gives for a
/// three-letter upper-case code, or the crypto currency it gives for one of
/// the admitted crypto codes (each with at most 28 fractional digits).
pub open spec fn known_currency(c: Currency) -> bool {
    &&& c.exponent <= 28
    &&& {
        ||| (is_iso_key(c.code@) && iso_currency_for(c.code@) == Some(c))
        ||| (crypto_codes().contains(c.code@) && crypto_currency_for(c.code@) == Some(c))
    }
}

/// A currency of the catalog that no other currency of the catalog shares its
/// code with.
pub open spec fn catalog_currency(c: Currency) -> bool {
    &&& known_currency(c)
    &&& forall|c2: Currency| known_currency(c2) && c2.code@ == c.code@ ==> c2 == c
}

/// Strictly increasing codes.
pub open spec fn sorted_by_code(s: Seq<Currency>) -> bool {
    forall|i: int, j: int| 0 <= i < j < s.len() ==> lex_lt(#[trigger] s[i].code@, #[trigger] s[j].code@)
}

/// Keys processed before `(a, b, c)` in upper-case lexicographic order.
pub open spec fn key_before(k: Seq<char>, a: u32, b: u32, c: u32) -> bool {
    ||| (k[0] as u32) < a
    ||| ((k[0] as u32) == a && (k[1] as u32) < b)
    ||| ((k[0] as u32) == a && (k[1] as u32) == b && (k[2] as u32) < c)
}

/// ISO entries with three-letter keys, all before `(a, b, c)`.
pub open spec fn iso_before(raw: Seq<Currency>, a: u32, b: u32, c: u32) -> bool {
    forall|p: int|
        0 <= p < raw.len() ==> (#[trigger] raw[p]).kind == CurrencyKind::Iso && is_iso_key(
            raw[p].code@,
        ) && key_before(raw[p].code@, a, b, c)
}

/// No currency occurs twice.
pub open spec fn all_distinct(raw: Seq<Currency>) -> bool {
    forall|p: int, q: int| 0 <= p < q < raw.len() ==> #[trigger] raw[p] != #[trigger] raw[q]
}

/// The admitted crypto codes are pairwise different.
proof fn lemma_crypto_codes_distinct()
    ensures
        forall|i: int, j: int|
            0 <= i < j < crypto_codes().len() ==> #[trigger] crypto_codes()[i]
                != #[trigger] crypto_codes()[j],
{
    reveal_strlit("BCH");
    reveal_strlit("BSV");
    reveal_strlit("BTC");
    reveal_strlit("COMP");
    reveal_strlit("DAI");
    reveal_strlit("ETH");
    reveal_strlit("LTC");
    reveal_strlit("MKR");
    reveal_strlit("TRX");
    reveal_strlit("UNI");
    reveal_strlit("USDC");
    reveal_strlit("USDT");
    reveal_strlit("XTZ");
    reveal_strlit("ZEC");
    let s = crypto_codes();
    assert forall|i: int, j: int| 0 <= i < j < s.len() implies #[trigger] s[i] != #[trigger] s[j] by {
        if s[i] == s[j] {
            assert(s[i].len() == s[j].len());
            assert(s[i][0] == s[j][0]);
            assert(s[i][1] == s[j][1]);
            assert(s[i][2] == s[j][2]);
            if s[i].len() == 4 {
                assert(s[i][3] == s[j][3]);
            }
        }
    }
}

pub struct Catalog {
    entries: Vec<Currency>,
}

impl Catalog {
    pub closed spec fn entry_seq(&self) -> Seq<Currency> {
        self.entries@
    }

    #[verifier::type_invariant]
    closed spec fn wf(self) -> bool {
        &&& sorted_by_code(self.entries@)
        &&& forall|i: int| 0 <= i < self.entries@.len() ==> known_currency(#[trigger] self.entries@[i])
        &&& forall|c: Currency| known_currency(c) ==> self.entries@.contains(c)
    }

    /// Builds the catalog: every ISO currency of rusty-money reachable by a
    /// three-letter upper-case code, plus the fourteen crypto currencies, sorted
    /// by code. Fails when a crypto code is missing from rusty-money or when two
    /// currencies share a code.
    pub fn new() -> (r: Result<Catalog, String>)
        ensures
            r matches Ok(cat) ==> complete_catalog(cat.entry_seq()),
            r matches Err(e) ==> {
                ||| (e@ == "compiled crypto code must exist"@ && exists|j: int|
                    0 <= j < crypto_codes().len() && crypto_currency_for(#[trigger] crypto_codes()[j]) is None)
                ||| (e@ == "ISO and crypto catalogs must not contain duplicate codes"@ && exists|
                    c1: Currency,
                    c2: Currency,
                |
                    known_currency(c1) && known_currency(c2) && c1 != c2 && #[trigger] c1.code@
                        == #[trigger] c2.code@)
            },
            (forall|j: int|
                0 <= j < crypto_codes().len() ==> crypto_currency_for(#[trigger] crypto_codes()[j])
                    is Some) && (forall|c1: Currency, c2: Currency|
                known_currency(c1) && known_currency(c2) && #[trigger] c1.code@ == #[trigger] c2.code@
                    ==> c1 == c2) ==> r is Ok,
    {
        let mut raw: Vec<Currency> = Vec::new();
        let mut a: u8 = 65;
        while a <= 90
            invariant
                65 <= a <= 91,
                iso_before(raw@, a as u32, 65, 65),
                all_distinct(raw@),
                forall|i: int| 0 <= i < raw@.len() ==> known_currency(#[trigger] raw@[i]),
                forall|k: Seq<char>|
                    #![trigger iso_currency_for(k)]
                    is_iso_key(k) && key_before(k, a as u32, 65, 65) && iso_currency_for(k) is Some
                        ==> raw@.contains(iso_currency_for(k)->0),
            decreases 91 - a,
        {
            let mut b: u8 = 65;
            while b <= 90
                invariant
                    65 <= a <= 90,
                    65 <= b <= 91,
                    iso_before(raw@, a as u32, b as u32, 65),
                    all_distinct(raw@),
                    forall|i: int| 0 <= i < raw@.len() ==> known_currency(#[trigger] raw@[i]),
                    forall|k: Seq<char>|
                        #![trigger iso_currency_for(k)]
                        is_iso_key(k) && key_before(k, a as u32, b as u32, 65)
                            && iso_currency_for(k) is Some ==> raw@.contains(
                            iso_currency_for(k)->0,
                        ),
                decreases 91 - b,
            {
                let mut c: u8 = 65;
                while c <= 90
                    invariant
                        65 <= a <= 90,
                        65 <= b <= 90,
                        65 <= c <= 91,
                        iso_before(raw@, a as u32, b as u32, c as u32),
                        all_distinct(raw@),
                        forall|i: int| 0 <= i < raw@.len() ==> known_currency(#[trigger] raw@[i]),
                        forall|k: Seq<char>|
                            #![trigger iso_currency_for(k)]
                            is_iso_key(k) && key_before(k, a as u32, b as u32, c as u32)
                                && iso_currency_for(k) is Some ==> raw@.contains(
                                iso_currency_for(k)->0,
                            ),
                    decreases 91 - c,
                {
                    let mut key = String::new();
                    key.push(a as char);
                    key.push(b as char);
                    key.push(c as char);
                    let ghost k = key@;
                    assert(k == seq![a as char, b as char, c as char]);
                    assert(is_iso_key(k));
                    let found = iso_find(key.as_str());
                    let ghost old_raw = raw@;
                    proof {
                        vstd::utf8::char_u32_cast(a as char, a as u32);
                        assert((a as char) as u32 == a as u32);
                        assert((b as char) as u32 == b as u32);
                        assert((c as char) as u32 == c as u32);
                    }
                    if let Some(cur) = found {
                        raw.push(cur);
                        assert(raw@[raw@.len() - 1] == cur);
                        assert(known_currency(cur));
                        proof {
                            assert forall|p: int, q: int|
                                0 <= p < q < raw@.len() implies #[trigger] raw@[p]
                                != #[trigger] raw@[q] by {
                                if q == raw@.len() - 1 {
                                    assert(raw@[p] == old_raw[p]);
                                    assert(key_before(old_raw[p].code@, a as u32, b as u32, c as u32));
                                    assert(old_raw[p].code@ != k);
                                } else {
                                    assert(raw@[p] == old_raw[p]);
                                    assert(raw@[q] == old_raw[q]);
                                }
                            }
                        }
                    }
                    proof {
                        assert forall|p: int| 0 <= p < raw@.len() implies (#[trigger] raw@[p]).kind
                            == CurrencyKind::Iso && is_iso_key(raw@[p].code@) && key_before(
                            raw@[p].code@,
                            a as u32,
                            b as u32,
                            (c + 1) as u32,
                        ) by {
                            if p < old_raw.len() {
                                assert(raw@[p] == old_raw[p]);
                            } else {
                                assert(raw@[p].code@ == k);
                            }
                        }
                    }
                    proof {
                        assert forall|k2: Seq<char>|
                            #![trigger iso_currency_for(k2)]
                            is_iso_key(k2) && key_before(k2, a as u32, b as u32, (c + 1) as u32)
                                && iso_currency_for(k2) is Some implies raw@.contains(
                            iso_currency_for(k2)->0,
                        ) by {
                            if key_before(k2, a as u32, b as u32, c as u32) {
                                assert(old_raw.contains(iso_currency_for(k2)->0));
                                let j = choose|j: int|
                                    0 <= j < old_raw.len() && old_raw[j] == iso_currency_for(
                                        k2,
                                    )->0;
                                assert(raw@[j] == old_raw[j]);
                            } else {
                                vstd::utf8::char_u32_cast(k2[0], k2[0] as u32);
                                vstd::utf8::char_u32_cast(k2[1], k2[1] as u32);
                                vstd::utf8::char_u32_cast(k2[2], k2[2] as u32);
                                assert(k2 =~= k);
                                assert(raw@[raw@.len() - 1] == iso_currency_for(k2)->0);
                            }
                        }
                    }
                    c = c + 1;
                }
                b = b + 1;
            }
            a = a + 1;
        }
        proof {
            assert forall|k: Seq<char>|
                #![trigger iso_currency_for(k)]
                is_iso_key(k) && iso_currency_for(k) is Some implies raw@.contains(
                iso_currency_for(k)->0,
            ) by {
                assert(key_before(k, 91, 65, 65));
            }
        }
        let codes = crypto_code_list();
        let n_iso = raw.len();
        proof {
            lemma_crypto_codes_distinct();
        }
        let mut i: usize = 0;
        while i < codes.len()
            invariant
                i <= codes@.len(),
                raw@.len() == n_iso + i,
                all_distinct(raw@),
                forall|p: int| 0 <= p < n_iso ==> (#[trigger] raw@[p]).kind == CurrencyKind::Iso,
                forall|p: int|
                    n_iso <= p < raw@.len() ==> (#[trigger] raw@[p]).kind == CurrencyKind::Crypto
                        && raw@[p].code@ == crypto_codes()[p - n_iso],
                forall|i1: int, j1: int|
                    0 <= i1 < j1 < crypto_codes().len() ==> #[trigger] crypto_codes()[i1]
                        != #[trigger] crypto_codes()[j1],
                codes@.len() == crypto_codes().len(),
                forall|j: int| 0 <= j < codes@.len() ==> #[trigger] codes@[j]@ == crypto_codes()[j],
                forall|j: int| 0 <= j < raw@.len() ==> known_currency(#[trigger] raw@[j]),
                forall|k: Seq<char>|
                    #![trigger iso_currency_for(k)]
                    is_iso_key(k) && iso_currency_for(k) is Some ==> raw@.contains(
                        iso_currency_for(k)->0,
                    ),
                forall|j: int|
                    0 <= j < i ==> crypto_currency_for(#[trigger] crypto_codes()[j]) is Some
                        && raw@.contains(crypto_currency_for(crypto_codes()[j])->0),
            decreases codes@.len() - i,
        {
            let ghost old_raw = raw@;
            match crypto_find(codes[i]) {
                Some(cur) => {
                    raw.push(cur);
                    assert(raw@[raw@.len() - 1] == cur);
                    assert(crypto_codes().contains(cur.code@)) by {
                        assert(crypto_codes()[i as int] == cur.code@);
                    }
                    assert forall|p: int, q: int|
                        0 <= p < q < raw@.len() implies #[trigger] raw@[p] != #[trigger] raw@[q] by {
                        assert(raw@[p] == old_raw[p]);
                        if q == raw@.len() - 1 {
                            if p >= n_iso {
                                assert(crypto_codes()[p - n_iso] != crypto_codes()[i as int]);
                            }
                        } else {
                            assert(raw@[q] == old_raw[q]);
                        }
                    }
                    assert forall|x: Currency| old_raw.contains(x) implies raw@.contains(x) by {
                        let j = choose|j: int| 0 <= j < old_raw.len() && old_raw[j] == x;
                        assert(raw@[j] == x);
                    }
                },
                None => {
                    assert(crypto_currency_for(crypto_codes()[i as int]) is None);
                    return Err("compiled crypto code must exist".to_string());
                },
            }
            i = i + 1;
        }
        proof {
            assert forall|c: Currency| known_currency(c) implies raw@.contains(c) by {
                if is_iso_key(c.code@) && iso_currency_for(c.code@) == Some(c) {
                } else {
                    let j = choose|j: int|
                        0 <= j < crypto_codes().len() && crypto_codes()[j] == c.code@;
                    assert(crypto_currency_for(crypto_codes()[j]) is Some);
                }
            }
        }
        match sort_unique(&raw) {
            Some(entries) => {
                proof {
                    assert forall|j: int| 0 <= j < entries@.len() implies known_currency(
                        #[trigger] entries@[j],
                    ) by {
                        assert(entries@.contains(entries@[j]));
                        assert(raw@.contains(entries@[j]));
                        let k = choose|k: int| 0 <= k < raw@.len() && raw@[k] == entries@[j];
                    }
                }
                Ok(Catalog { entries })
            },
            None => {
                proof {
                    let (p, q) = choose|p: int, q: int|
                        0 <= p < q < raw@.len() && #[trigger] raw@[p].code@ == #[trigger] raw@[q].code@;
                    assert(known_currency(raw@[p]) && known_currency(raw@[q]) && raw@[p] != raw@[q]);
                }
                Err("ISO and crypto catalogs must not contain duplicate codes".to_string())
            },
        }
    }

    /// The catalog's currencies, sorted by code.
    pub fn currencies(&self) -> (r: &[Currency])
        ensures
            r@ == self.entry_seq(),
    {
        &self.entries
    }

    /// Binary search for the currency with exactly this code.
    pub fn find(&self, code: &[char]) -> (r: Option<&Currency>)
        ensures
            r matches Some(c) ==> known_currency(*c) && c.code@ == code@,
            r matches Some(c) ==> forall|c2: Currency|
                known_currency(c2) && c2.code@ == code@ ==> c2 == *c,
            r is None ==> forall|c: Currency| known_currency(c) ==> c.code@ != code@,
    {
        proof {
            use_type_invariant(self);
        }
        let mut lo: usize = 0;
        let mut hi: usize = self.entries.len();
        while lo < hi
            invariant
                lo <= hi <= self.entries@.len(),
                forall|c: Currency| known_currency(c) ==> self.entries@.contains(c),
                sorted_by_code(self.entries@),
                forall|j: int| 0 <= j < self.entries@.len() ==> known_currency(#[trigger] self.entries@[j]),
                forall|j: int| 0 <= j < lo ==> lex_lt(#[trigger] self.entries@[j].code@, code@),
                forall|j: int| hi <= j < self.entries@.len() ==> lex_lt(code@, #[trigger] self.entries@[j].code@),
            decreases hi - lo,
        {
            let mid = lo + (hi - lo) / 2;
            let mid_code = chars_of(self.entries[mid].code);
            let order = compare_chars(&mid_code, code);
            if order == 0 {
                assert(known_currency(self.entries@[mid as int]));
                proof {
                    assert forall|c2: Currency|
                        known_currency(c2) && c2.code@ == code@ implies c2 == self.entries@[mid as int] by {
                        assert(self.entries@.contains(c2));
                        let j = choose|j: int| 0 <= j < self.entries@.len() && self.entries@[j] == c2;
                        if j < mid {
                            assert(lex_lt(self.entries@[j].code@, self.entries@[mid as int].code@));
                            lemma_lex_total(c2.code@, c2.code@);
                        } else if j > mid {
                            assert(lex_lt(self.entries@[mid as int].code@, self.entries@[j].code@));
                            lemma_lex_total(c2.code@, c2.code@);
                        }
                    }
                }
                return Some(&self.entries[mid]);
            } else if order < 0 {
                proof {
                    assert forall|j: int| 0 <= j < mid + 1 implies lex_lt(
                        #[trigger] self.entries@[j].code@,
                        code@,
                    ) by {
                        if j < mid {
                            lemma_lex_trans(
                                self.entries@[j].code@,
                                self.entries@[mid as int].code@,
                                code@,
                            );
                        }
                    }
                }
                lo = mid + 1;
            } else {
                proof {
                    assert forall|j: int| mid <= j < self.entries@.len() implies lex_lt(
                        code@,
                        #[trigger] self.entries@[j].code@,
                    ) by {
                        if j > mid {
                            lemma_lex_trans(
                                code@,
                                self.entries@[mid as int].code@,
                                self.entries@[j].code@,
                            );
                        }
                    }
                }
                hi = mid;
            }
        }
        proof {
            assert forall|c: Currency| known_currency(c) implies c.code@ != code@ by {
                assert(self.entries@.contains(c));
                let j = choose|j: int| 0 <= j < self.entries@.len() && self.entries@[j] == c;
                lemma_lex_total(c.code@, code@);
            }
        }
        None
    }
}

/// Two sequences sorted by strictly increasing code that hold the same
/// currencies are the same sequence.
proof fn lemma_sorted_same_contents(s: Seq<Currency>, t: Seq<Currency>)
    requires
        sorted_by_code(s),
        sorted_by_code(t),
        forall|c: Currency| s.contains(c) <==> t.contains(c),
    ensures
        s == t,
    decreases s.len() + t.len(),
{
    if s.len() == 0 {
        if t.len() > 0 {
            assert(t.contains(t[0]));
        }
        assert(s =~= t);
        return;
    }
    if t.len() == 0 {
        assert(s.contains(s[0]));
        return;
    }
    assert(s.contains(s[0]));
    assert(t.contains(t[0]));
    let j = choose|j: int| 0 <= j < t.len() && t[j] == s[0];
    let i = choose|i: int| 0 <= i < s.len() && s[i] == t[0];
    lemma_lex_total(s[0].code@, s[0].code@);
    if j > 0 {
        assert(lex_lt(t[0].code@, t[j].code@));
        if i > 0 {
            assert(lex_lt(s[0].code@, s[i].code@));
            lemma_lex_total(s[0].code@, s[i].code@);
        }
        assert(false);
    }
    assert(s[0] == t[0]);
    let s2 = s.drop_first();
    let t2 = t.drop_first();
    assert forall|c: Currency| s2.contains(c) <==> t2.contains(c) by {
        if s2.contains(c) {
            let k = choose|k: int| 0 <= k < s2.len() && s2[k] == c;
            assert(s[k + 1] == c);
            assert(lex_lt(s[0].code@, c.code@));
            assert(s.contains(c));
            assert(t.contains(c));
            let m = choose|m: int| 0 <= m < t.len() && t[m] == c;
            if m == 0 {
                lemma_lex_total(c.code@, c.code@);
            }
            assert(t2[m - 1] == c);
        }
        if t2.contains(c) {
            let k = choose|k: int| 0 <= k < t2.len() && t2[k] == c;
            assert(t[k + 1] == c);
            assert(lex_lt(t[0].code@, c.code@));
            assert(t.contains(c));
            assert(s.contains(c));
            let m = choose|m: int| 0 <= m < s.len() && s[m] == c;
            if m == 0 {
                lemma_lex_total(c.code@, c.code@);
            }
            assert(s2[m - 1] == c);
        }
    }
    assert(sorted_by_code(s2)) by {
        assert forall|p: int, q: int| 0 <= p < q < s2.len() implies lex_lt(
            #[trigger] s2[p].code@,
            #[trigger] s2[q].code@,
        ) by {
            assert(s2[p] == s[p + 1] && s2[q] == s[q + 1]);
        }
    }
    assert(sorted_by_code(t2)) by {
        assert forall|p: int, q: int| 0 <= p < q < t2.len() implies lex_lt(
            #[trigger] t2[p].code@,
            #[trigger] t2[q].code@,
        ) by {
            assert(t2[p] == t[p + 1] && t2[q] == t[q + 1]);
        }
    }
    lemma_sorted_same_contents(s2, t2);
    assert(s =~= seq![s[0]] + s2);
    assert(t =~= seq![t[0]] + t2);
}

/// What a catalog holds: currencies in strictly increasing code order, each
/// one rusty-money knows, and every one it knows.
pub open spec fn complete_catalog(s: Seq<Currency>) -> bool {
    &&& sorted_by_code(s)
    &&& forall|i: int| 0 <= i < s.len() ==> known_currency(#[trigger] s[i])
    &&& forall|c: Currency| known_currency(c) ==> s.contains(c)
}

/// The catalog is determined: any two sequences that hold what a catalog
/// holds (as every catalog `Catalog::new` builds does) are the same, so a
/// code always names the same descriptor at the same place.
pub proof fn law_catalog_is_unique(s: Seq<Currency>, t: Seq<Currency>)
    requires
        complete_catalog(s),
        complete_catalog(t),
    ensures
        s == t,
{
    assert forall|c: Currency| s.contains(c) <==> t.contains(c) by {
        if s.contains(c) {
            let k = choose|k: int| 0 <= k < s.len() && s[k] == c;
            assert(known_currency(s[k]));
        }
        if t.contains(c) {
            let k = choose|k: int| 0 <= k < t.len() && t[k] == c;
            assert(known_currency(t[k]));
        }
    }
    lemma_sorted_same_contents(s, t);
}

/// Sorts by code, inserting each currency at its place; `None` when two
/// currencies share a code.
fn sort_unique(raw: &Vec<Currency>) -> (r: Option<Vec<Currency>>)
    ensures
        r matches Some(out) ==> {
            &&& sorted_by_code(out@)
            &&& forall|x: Currency| out@.contains(x) <==> raw@.contains(x)
        },
        r is None ==> exists|p: int, q: int|
            0 <= p < q < raw@.len() && #[trigger] raw@[p].code@ == #[trigger] raw@[q].code@,
{
    let mut out: Vec<Currency> = Vec::new();
    let mut i: usize = 0;
    while i < raw.len()
        invariant
            i <= raw@.len(),
            sorted_by_code(out@),
            forall|x: Currency| out@.contains(x) <==> raw@.take(i as int).contains(x),
        decreases raw@.len() - i,
    {
        let item = raw[i];
        let item_code = chars_of(item.code);
        let mut pos: usize = 0;
        while pos < out.len() && compare_chars(&chars_of(out[pos].code), &item_code) < 0
            invariant
                pos <= out@.len(),
                item_code@ == item.code@,
                sorted_by_code(out@),
                forall|j: int| 0 <= j < pos ==> lex_lt(#[trigger] out@[j].code@, item.code@),
            decreases out@.len() - pos,
        {
            pos = pos + 1;
        }
        if pos < out.len() && compare_chars(&chars_of(out[pos].code), &item_code) == 0 {
            proof {
                let x = out@[pos as int];
                assert(out@.contains(x));
                assert(raw@.take(i as int).contains(x));
                let k = choose|k: int| 0 <= k < i && raw@.take(i as int)[k] == x;
                assert(raw@[k] == x);
                assert(raw@[k].code@ == raw@[i as int].code@);
            }
            return None;
        }
        let ghost old_out = out@;
        proof {
            if pos < out@.len() {
                lemma_lex_total(out@[pos as int].code@, item.code@);
                assert forall|j: int| pos <= j < old_out.len() implies lex_lt(
                    item.code@,
                    #[trigger] old_out[j].code@,
                ) by {
                    if j > pos {
                        lemma_lex_trans(item.code@, old_out[pos as int].code@, old_out[j].code@);
                    }
                }
            }
        }
        out.insert(pos, item);
        proof {
            assert(out@ == old_out.insert(pos as int, item));
            assert forall|p: int, q: int| 0 <= p < q < out@.len() implies lex_lt(
                #[trigger] out@[p].code@,
                #[trigger] out@[q].code@,
            ) by {
                if q < pos {
                } else if q == pos {
                } else if p < pos {
                    assert(out@[q] == old_out[q - 1]);
                    lemma_lex_trans(out@[p].code@, item.code@, out@[q].code@);
                } else if p == pos {
                    assert(out@[q] == old_out[q - 1]);
                } else {
                    assert(out@[q] == old_out[q - 1]);
                    assert(out@[p] == old_out[p - 1]);
                }
            }
            assert(raw@.take((i + 1) as int) == raw@.take(i as int).push(item));
            let t = raw@.take((i + 1) as int);
            assert(t[i as int] == item);
            assert forall|x: Currency| out@.contains(x) implies t.contains(x) by {
                let j = choose|j: int| 0 <= j < out@.len() && out@[j] == x;
                if j < pos {
                    assert(old_out[j] == x);
                    assert(old_out.contains(x));
                    assert(raw@.take(i as int).contains(x));
                    let k = choose|k: int| 0 <= k < i && raw@.take(i as int)[k] == x;
                    assert(t[k] == x);
                } else if j > pos {
                    assert(old_out[j - 1] == x);
                    assert(old_out.contains(x));
                    assert(raw@.take(i as int).contains(x));
                    let k = choose|k: int| 0 <= k < i && raw@.take(i as int)[k] == x;
                    assert(t[k] == x);
                } else {
                    assert(t[i as int] == x);
                }
            }
            assert forall|x: Currency| t.contains(x) implies out@.contains(x) by {
                let j = choose|j: int| 0 <= j < t.len() && #[trigger] t[j] == x;
                if j < i {
                    assert(raw@.take(i as int)[j] == x);
                    assert(raw@.take(i as int).contains(x));
                    assert(old_out.contains(x));
                    let k = choose|k: int| 0 <= k < old_out.len() && old_out[k] == x;
                    if k < pos {
                        assert(out@[k] == x);
                    } else {
                        assert(out@[k + 1] == x);
                    }
                } else {
                    assert(out@[pos as int] == x);
                }
            }
        }
        i = i + 1;
    }
    assert(raw@.take(raw@.len() as int) == raw@);
    Some(out)
}

/// Three or four upper-case letters.
pub open spec fn is_code_shape(k: Seq<char>) -> bool {
    &&& (k.len() == 3 || k.len() == 4)
    &&& forall|i: int| 0 <= i < k.len() ==> is_upper_letter(#[trigger] k[i])
}

/// Every code of the catalog is three or four upper-case letters.
pub proof fn lemma_known_code_shape(c: Currency)
    requires
        known_currency(c),
    ensures
        is_code_shape(c.code@),
{
    reveal_strlit("BCH");
    reveal_strlit("BSV");
    reveal_strlit("BTC");
    reveal_strlit("COMP");
    reveal_strlit("DAI");
    reveal_strlit("ETH");
    reveal_strlit("LTC");
    reveal_strlit("MKR");
    reveal_strlit("TRX");
    reveal_strlit("UNI");
    reveal_strlit("USDC");
    reveal_strlit("USDT");
    reveal_strlit("XTZ");
    reveal_strlit("ZEC");
    assert(is_code_shape("BCH"@));
    assert(is_code_shape("BSV"@));
    assert(is_code_shape("BTC"@));
    assert(is_code_shape("COMP"@));
    assert(is_code_shape("DAI"@));
    assert(is_code_shape("ETH"@));
    assert(is_code_shape("LTC"@));
    assert(is_code_shape("MKR"@));
    assert(is_code_shape("TRX"@));
    assert(is_code_shape("UNI"@));
    assert(is_code_shape("USDC"@));
    assert(is_code_shape("USDT"@));
    assert(is_code_shape("XTZ"@));
    assert(is_code_shape("ZEC"@));
    if !is_iso_key(c.code@) {
        let j = choose|j: int| 0 <= j < crypto_codes().len() && crypto_codes()[j] == c.code@;
        assert(is_code_shape(crypto_codes()[j]));
    }
}

} // verus!
