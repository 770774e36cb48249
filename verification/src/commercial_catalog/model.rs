//! Domain types of the commercial catalog: identifiers, validated
//! scalars, provenance, errors and planning configuration.

use crate::composition::Composition;
use crate::frac::{fits_i128, reduce, Frac};
use crate::lex::{chars_le, lemma_seq_le_antisym, lemma_seq_le_total, lemma_seq_le_trans, seq_le};
use crate::precursor::PrecursorId;
use crate::report::WarningSeverity;
use crate::text::{append_int, chars_eq, chars_of, int_text, lower_chars, lowered, trim_chars, trimmed};
use vstd::prelude::*;
use vstd::string::StringExecFns;

verus! {

/// A catalog offer identifier.
#[derive(Debug, Clone, PartialEq, Eq, PartialOrd, Ord, Hash)]
pub struct CommercialOfferId(pub String);

/// Errors of catalog construction and parsing.
#[derive(Debug, Clone, PartialEq, Eq)]
pub enum CommercialCatalogError {
    /// A purity outside `(0, 1]`, as numerator and denominator.
    InvalidPurity { numerator: i128, denominator: i128 },
    /// A package mass that is not positive or not representable, in grams
    /// where known, as numerator and denominator.
    InvalidPackageMass { numerator: i128, denominator: i128 },
    InvalidParticleSizeRange { reason: String },
    InvalidCurrencyCode { code: String },
    FormulaParseError { formula: String, reason: String },
    InconsistentRequest { reason: String },
    InvalidColumnMap { reason: String },
}

/// The message a catalog error reports.
pub open spec fn catalog_error_text(e: CommercialCatalogError) -> Seq<char> {
    match e {
        CommercialCatalogError::InvalidPurity { numerator, denominator } => "purity fraction must be > 0 and <= 1, got "@
            + int_text(numerator as int) + "/"@ + int_text(denominator as int),
        CommercialCatalogError::InvalidPackageMass { numerator, denominator } => "package mass must be finite and > 0 grams, got "@
            + int_text(numerator as int) + "/"@ + int_text(denominator as int),
        CommercialCatalogError::InvalidParticleSizeRange { reason } => "particle size range invalid: "@ + reason@,
        CommercialCatalogError::InvalidCurrencyCode { code } => "\""@ + code@
            + "\" is not a 3-letter uppercase ASCII currency code"@,
        CommercialCatalogError::FormulaParseError { formula, reason } => "could not parse formula \""@ + formula@
            + "\": "@ + reason@,
        CommercialCatalogError::InconsistentRequest { reason } => "inconsistent commercial planning request: "@
            + reason@,
        CommercialCatalogError::InvalidColumnMap { reason } => "invalid CSV column map: "@ + reason@,
    }
}

impl CommercialCatalogError {
    /// The message this error reports, as [`catalog_error_text`] gives it.
    pub fn message(&self) -> (r: String)
        ensures
            r@ == catalog_error_text(*self),
    {
        match self {
            CommercialCatalogError::InvalidPurity { numerator, denominator } => {
                let mut s = String::from_str("purity fraction must be > 0 and <= 1, got ");
                append_int(&mut s, *numerator);
                s.append("/");
                append_int(&mut s, *denominator);
                s
            },
            CommercialCatalogError::InvalidPackageMass { numerator, denominator } => {
                let mut s = String::from_str("package mass must be finite and > 0 grams, got ");
                append_int(&mut s, *numerator);
                s.append("/");
                append_int(&mut s, *denominator);
                s
            },
            CommercialCatalogError::InvalidParticleSizeRange { reason } => {
                let mut s = String::from_str("particle size range invalid: ");
                s.append(reason.as_str());
                s
            },
            CommercialCatalogError::InvalidCurrencyCode { code } => {
                let mut s = String::from_str("\"");
                s.append(code.as_str());
                s.append("\" is not a 3-letter uppercase ASCII currency code");
                s
            },
            CommercialCatalogError::FormulaParseError { formula, reason } => {
                let mut s = String::from_str("could not parse formula \"");
                s.append(formula.as_str());
                s.append("\": ");
                s.append(reason.as_str());
                s
            },
            CommercialCatalogError::InconsistentRequest { reason } => {
                let mut s = String::from_str("inconsistent commercial planning request: ");
                s.append(reason.as_str());
                s
            },
            CommercialCatalogError::InvalidColumnMap { reason } => {
                let mut s = String::from_str("invalid CSV column map: ");
                s.append(reason.as_str());
                s
            },
        }
    }
}

/// Three ASCII uppercase letters.
pub open spec fn is_currency_code(s: Seq<char>) -> bool {
    s.len() == 3 && forall|i: int| 0 <= i < 3 ==> 'A' <= #[trigger] s[i] <= 'Z'
}

/// A 3-letter uppercase ASCII currency code. Format-validated only, not an
/// ISO 4217 whitelist: all the arithmetic needs is to tell one currency
/// from another.
#[derive(Debug, Clone, Copy, PartialEq, Eq, PartialOrd, Ord, Hash)]
pub struct CurrencyCode([u8; 3]);

impl CurrencyCode {
    #[verifier::type_invariant]
    spec fn uppercase(self) -> bool {
        forall|i: int| 0 <= i < 3 ==> 65 <= #[trigger] self.0@[i] <= 90
    }

    /// The code's letters.
    pub closed spec fn letters(self) -> Seq<char> {
        seq![self.0[0] as char, self.0[1] as char, self.0[2] as char]
    }

    /// Accepts exactly three ASCII uppercase letters.
    pub fn new(code: &str) -> (r: Result<CurrencyCode, CommercialCatalogError>)
        ensures
            r is Ok <==> is_currency_code(code@),
            r is Ok ==> r->Ok_0.letters() == code@,
            r is Err ==> (r->Err_0 matches CommercialCatalogError::InvalidCurrencyCode { code: c }
                && c@ == code@),
    {
        let n = code.unicode_len();
        if n == 3 {
            let a = code.get_char(0);
            let b = code.get_char(1);
            let c = code.get_char(2);
            if 'A' <= a && a <= 'Z' && 'A' <= b && b <= 'Z' && 'A' <= c && c <= 'Z' {
                let r = CurrencyCode([a as u8, b as u8, c as u8]);
                proof {
                    assert(r.letters() =~= code@);
                }
                return Ok(r);
            }
        }
        Err(CommercialCatalogError::InvalidCurrencyCode { code: String::from_str(code) })
    }

    /// Codes are identified by their letters.
    pub proof fn lemma_letters_identify(a: CurrencyCode, b: CurrencyCode)
        ensures
            a.letters() == b.letters() ==> a == b,
    {
        if a.letters() == b.letters() {
            assert(a.letters()[0] == b.letters()[0]);
            assert(a.letters()[1] == b.letters()[1]);
            assert(a.letters()[2] == b.letters()[2]);
            broadcast use vstd::array::axiom_array_ext_equal;
            assert(a.0 =~= b.0);
        }
    }

    /// The code as a string: three uppercase letters, so
    /// [`CurrencyCode::new`] accepts it back as the same code
    /// ([`CurrencyCode::lemma_letters_identify`]).
    pub fn as_str(&self) -> (r: &str)
        ensures
            r@ == self.letters(),
            is_currency_code(r@),
    {
        proof {
            use_type_invariant(self);
        }
        ascii_str(&self.0)
    }

    /// Whether this code sorts strictly before `other`, letter by letter.
    pub fn precedes(&self, other: &CurrencyCode) -> (r: bool)
        ensures
            r == (seq_le(self.letters(), other.letters()) && self.letters() != other.letters()),
    {
        let a = self.0;
        let b = other.0;
        let ghost la = self.letters();
        let ghost lb = other.letters();
        proof {
            assert(la.drop_first().drop_first().drop_first().len() == 0);
            assert(lb.drop_first().drop_first().drop_first().len() == 0);
            reveal_with_fuel(seq_le, 4);
        }
        let r = if a[0] != b[0] {
            a[0] < b[0]
        } else if a[1] != b[1] {
            a[1] < b[1]
        } else {
            a[2] < b[2]
        };
        proof {
            if la == lb {
                assert(la[0] == lb[0] && la[1] == lb[1] && la[2] == lb[2]);
            }
            if a[0] == b[0] && a[1] == b[1] && a[2] == b[2] {
                assert(la =~= lb);
            }
        }
        r
    }

    /// Same currency.
    pub fn same(&self, other: &CurrencyCode) -> (r: bool)
        ensures
            r == (self.letters() == other.letters()),
    {
        proof {
            use_type_invariant(self);
            use_type_invariant(other);
        }
        let r = self.0[0] == other.0[0] && self.0[1] == other.0[1] && self.0[2] == other.0[2];
        proof {
            if self.letters() == other.letters() {
                assert(self.letters()[0] == other.letters()[0]);
                assert(self.letters()[1] == other.letters()[1]);
                assert(self.letters()[2] == other.letters()[2]);
            }
        }
        r
    }
}

/// The string spelled by three ASCII bytes, through `std::str::from_utf8`.
/// Claims that an ASCII byte array decodes to the characters with those
/// codes, which the UTF-8 encoding of ASCII guarantees.
#[verifier::external_body]
fn ascii_str(bytes: &[u8; 3]) -> (r: &str)
    requires
        forall|i: int| 0 <= i < 3 ==> bytes@[i] < 128,
    ensures
        r@ == seq![bytes@[0] as char, bytes@[1] as char, bytes@[2] as char],
{
    match std::str::from_utf8(bytes) {
        Ok(s) => s,
        Err(_) => "",
    }
}

/// A purity as an exact fraction in `(0, 1]`.
#[derive(Debug, Clone, Copy, PartialEq, Eq)]
pub struct PurityFraction(Frac);

impl PurityFraction {
    #[verifier::type_invariant]
    spec fn in_unit_interval(self) -> bool {
        self.0.wf() && 0 < self.0@.0 <= self.0@.1
    }

    /// The fraction.
    pub closed spec fn fraction(self) -> Frac {
        self.0
    }

    /// Accepts exactly the values in `(0, 1]`; anything else is
    /// `InvalidPurity` carrying the value.
    pub fn new(value: Frac) -> (r: Result<PurityFraction, CommercialCatalogError>)
        requires
            value.wf(),
        ensures
            r is Ok <==> 0 < value@.0 <= value@.1,
            r matches Ok(p) ==> p.fraction() == value,
            r matches Err(e) ==> e == (CommercialCatalogError::InvalidPurity {
                numerator: value@.0 as i128,
                denominator: value@.1 as i128,
            }),
    {
        if value.numerator() <= 0 || value.numerator() > value.denominator() {
            return Err(
                CommercialCatalogError::InvalidPurity {
                    numerator: value.numerator(),
                    denominator: value.denominator(),
                },
            );
        }
        Ok(PurityFraction(value))
    }

    pub fn value(&self) -> (r: Frac)
        ensures
            r == self.fraction(),
            r.wf(),
            0 < r@.0 <= r@.1,
    {
        proof {
            use_type_invariant(self);
        }
        self.0
    }
}

/// A package size in grams, exact and positive.
#[derive(Debug, Clone, Copy, PartialEq, Eq)]
pub struct PackageMass(Frac);

impl PackageMass {
    #[verifier::type_invariant]
    spec fn positive(self) -> bool {
        self.0.wf() && self.0@.0 > 0
    }

    /// The mass in grams.
    pub closed spec fn in_grams(self) -> Frac {
        self.0
    }

    /// Accepts exactly a positive mass; otherwise `InvalidPackageMass`
    /// carrying it.
    pub fn new(grams: Frac) -> (r: Result<PackageMass, CommercialCatalogError>)
        requires
            grams.wf(),
        ensures
            r is Ok <==> grams@.0 > 0,
            r matches Ok(p) ==> p.in_grams() == grams,
            r matches Err(e) ==> e == (CommercialCatalogError::InvalidPackageMass {
                numerator: grams@.0 as i128,
                denominator: grams@.1 as i128,
            }),
    {
        if grams.numerator() <= 0 {
            return Err(
                CommercialCatalogError::InvalidPackageMass {
                    numerator: grams.numerator(),
                    denominator: grams.denominator(),
                },
            );
        }
        Ok(PackageMass(grams))
    }

    /// `mg / 1000` grams. `InvalidPackageMass` when the mass is not
    /// positive, or when its denominator times 1000 leaves `i128`.
    pub fn from_milligrams(mg: Frac) -> (r: Result<PackageMass, CommercialCatalogError>)
        requires
            mg.wf(),
        ensures
            r is Ok <==> mg@.0 > 0 && fits_i128(mg@.1 * 1000),
            r matches Ok(p) ==> p.in_grams()@ == reduce(mg@.0, mg@.1 * 1000),
            r matches Err(e) ==> e is InvalidPackageMass,
    {
        let thousand = match Frac::new(1000, 1) {
            Ok(t) => t,
            Err(_) => {
                return Err(
                    CommercialCatalogError::InvalidPackageMass {
                        numerator: mg.numerator(),
                        denominator: mg.denominator(),
                    },
                )
            },
        };
        proof {
            lemma_thousand();
        }
        match mg.checked_div(thousand) {
            Ok(grams) => {
                proof {
                    crate::frac::lemma_reduce(mg@.0, mg@.1 * 1000);
                    assert(grams@.0 > 0 <==> mg@.0 > 0) by {
                        crate::frac::lemma_reduce_sign(mg@.0, mg@.1 * 1000);
                    }
                }
                PackageMass::new(grams)
            },
            Err(_) => Err(
                CommercialCatalogError::InvalidPackageMass {
                    numerator: mg.numerator(),
                    denominator: mg.denominator(),
                },
            ),
        }
    }

    /// `kg * 1000` grams. `InvalidPackageMass` when the mass is not
    /// positive, or when its numerator times 1000 leaves `i128`.
    pub fn from_kilograms(kg: Frac) -> (r: Result<PackageMass, CommercialCatalogError>)
        requires
            kg.wf(),
        ensures
            r is Ok <==> kg@.0 > 0 && fits_i128(kg@.0 * 1000),
            r matches Ok(p) ==> p.in_grams()@ == reduce(kg@.0 * 1000, kg@.1),
            r matches Err(e) ==> e is InvalidPackageMass,
    {
        let thousand = match Frac::new(1000, 1) {
            Ok(t) => t,
            Err(_) => {
                return Err(
                    CommercialCatalogError::InvalidPackageMass {
                        numerator: kg.numerator(),
                        denominator: kg.denominator(),
                    },
                )
            },
        };
        proof {
            lemma_thousand();
        }
        match kg.checked_mul(thousand) {
            Ok(grams) => {
                proof {
                    assert(grams@.0 > 0 <==> kg@.0 > 0) by {
                        crate::frac::lemma_reduce_sign(kg@.0 * 1000, kg@.1);
                    }
                }
                PackageMass::new(grams)
            },
            Err(_) => Err(
                CommercialCatalogError::InvalidPackageMass {
                    numerator: kg.numerator(),
                    denominator: kg.denominator(),
                },
            ),
        }
    }

    pub fn grams(&self) -> (r: Frac)
        ensures
            r == self.in_grams(),
            r.wf(),
            r@.0 > 0,
    {
        proof {
            use_type_invariant(self);
        }
        self.0
    }
}

/// `1000/1` is in lowest terms.
proof fn lemma_thousand()
    ensures
        reduce(1000, 1) == (1000int, 1int),
{
    assert(crate::numtheory::gcd(1000, 1) == 1) by {
        assert(1000nat % 1nat == 0nat);
        reveal_with_fuel(crate::numtheory::gcd, 2);
    }
    crate::frac::lemma_reduce_canonical((1000int, 1int));
}

/// A particle size range in micrometres, `0 <= min <= max`, exact.
#[derive(Debug, Clone, Copy, PartialEq, Eq)]
pub struct ParticleSizeRangeUm {
    min_um: Frac,
    max_um: Frac,
}

impl ParticleSizeRangeUm {
    #[verifier::type_invariant]
    spec fn ordered(self) -> bool {
        self.min_um.wf() && self.max_um.wf() && self.min_um@.0 >= 0 && self.min_um@.0
            * self.max_um@.1 <= self.max_um@.0 * self.min_um@.1
    }

    pub closed spec fn low(self) -> Frac {
        self.min_um
    }

    pub closed spec fn high(self) -> Frac {
        self.max_um
    }

    /// Accepts `0 <= min_um <= max_um`; otherwise
    /// `InvalidParticleSizeRange` with the reason.
    pub fn new(min_um: Frac, max_um: Frac) -> (r: Result<ParticleSizeRangeUm, CommercialCatalogError>)
        requires
            min_um.wf(),
            max_um.wf(),
        ensures
            r is Ok <==> min_um@.0 >= 0 && min_um@.0 * max_um@.1 <= max_um@.0 * min_um@.1,
            r matches Ok(p) ==> p.low() == min_um && p.high() == max_um,
            r matches Err(e) ==> e matches CommercialCatalogError::InvalidParticleSizeRange { reason }
                && reason@ == (if min_um@.0 < 0 {
                "min_um must be >= 0"@
            } else {
                "min_um must be <= max_um"@
            }),
    {
        if min_um.numerator() < 0 {
            return Err(
                CommercialCatalogError::InvalidParticleSizeRange {
                    reason: String::from_str("min_um must be >= 0"),
                },
            );
        }
        if !min_um.at_most(&max_um) {
            return Err(
                CommercialCatalogError::InvalidParticleSizeRange {
                    reason: String::from_str("min_um must be <= max_um"),
                },
            );
        }
        Ok(ParticleSizeRangeUm { min_um, max_um })
    }

    pub fn min_um(&self) -> (r: Frac)
        ensures
            r == self.low(),
    {
        self.min_um
    }

    pub fn max_um(&self) -> (r: Frac)
        ensures
            r == self.high(),
    {
        self.max_um
    }
}

/// Money as integer minor units of one currency; never a float.
#[derive(Debug, Clone, Copy, PartialEq, Eq, PartialOrd, Ord, Hash)]
pub struct Money {
    minor_units: u64,
    currency: CurrencyCode,
}

impl Money {
    pub closed spec fn units(self) -> u64 {
        self.minor_units
    }

    pub closed spec fn code(self) -> CurrencyCode {
        self.currency
    }

    pub fn new(minor_units: u64, currency: CurrencyCode) -> (r: Money)
        ensures
            r.units() == minor_units,
            r.code() == currency,
    {
        Money { minor_units, currency }
    }

    pub fn minor_units(&self) -> (r: u64)
        ensures
            r == self.units(),
    {
        self.minor_units
    }

    pub fn currency(&self) -> (r: CurrencyCode)
        ensures
            r == self.code(),
    {
        self.currency
    }

    /// `None` exactly on overflow; never panics.
    pub fn checked_mul_quantity(&self, count: u64) -> (r: Option<Money>)
        ensures
            r is None <==> self.units() * count > u64::MAX,
            r matches Some(m) ==> m.units() == self.units() * count && m.code() == self.code(),
    {
        match self.minor_units.checked_mul(count) {
            Some(minor_units) => Some(Money { minor_units, currency: self.currency }),
            None => None,
        }
    }

    /// `None` on overflow or on a currency mismatch: currencies are never
    /// summed across each other.
    pub fn checked_add(&self, other: &Money) -> (r: Option<Money>)
        ensures
            r is None <==> (self.code().letters() != other.code().letters() || self.units()
                + other.units() > u64::MAX),
            r matches Some(m) ==> m.units() == self.units() + other.units() && m.code()
                == self.code(),
    {
        if !self.currency.same(&other.currency) {
            return None;
        }
        match self.minor_units.checked_add(other.minor_units) {
            Some(minor_units) => Some(Money { minor_units, currency: self.currency }),
            None => None,
        }
    }
}

/// Whether `c` is an ASCII digit.
pub open spec fn is_digit(c: char) -> bool {
    '0' <= c <= '9'
}

/// The value of a digit character.
pub open spec fn digit_value(c: char) -> int {
    (c as u32) - ('0' as u32)
}

/// `sum_{k < n} (k + 1) * d[len - 1 - k]`: the CAS weighted sum over the
/// digits read from the right.
pub open spec fn cas_weighted_sum(d: Seq<char>, n: int) -> int
    decreases n,
{
    if n <= 0 {
        0
    } else {
        cas_weighted_sum(d, n - 1) + n * digit_value(d[d.len() - n])
    }
}

/// `NNNNNNN-NN-C` with 2 to 7 leading digits, whose check digit `C` is the
/// weighted digit sum mod 10.
pub open spec fn cas_valid(s: Seq<char>) -> bool {
    let n = s.len() as int;
    &&& 7 <= n <= 12
    &&& s[n - 2] == '-'
    &&& s[n - 5] == '-'
    &&& forall|i: int| 0 <= i < n && i != n - 2 && i != n - 5 ==> is_digit(#[trigger] s[i])
    &&& cas_weighted_sum(s.subrange(0, n - 5) + s.subrange(n - 4, n - 2), n - 3) % 10
        == digit_value(s[n - 1])
}

/// The CAS check-digit test.
fn cas_checksum_valid(raw: &str) -> (r: bool)
    ensures
        r == cas_valid(raw@),
{
    let v = chars_of(raw);
    let n = v.len();
    if n < 7 || n > 12 {
        return false;
    }
    if v[n - 2] != '-' || v[n - 5] != '-' {
        return false;
    }
    let mut i: usize = 0;
    while i < n
        invariant
            i <= n,
            7 <= n <= 12,
            n == v@.len(),
            v@ == raw@,
            forall|k: int| 0 <= k < i && k != n - 2 && k != n - 5 ==> is_digit(#[trigger] v@[k]),
        decreases n - i,
    {
        if i != n - 2 && i != n - 5 && !('0' <= v[i] && v[i] <= '9') {
            assert(!is_digit(raw@[i as int]));
            return false;
        }
        i = i + 1;
    }
    let ghost d = v@.subrange(0, n - 5) + v@.subrange(n - 4, n - 2);
    let mut sum: u32 = 0;
    let mut k: usize = 1;
    // digits right to left: positions n-3, n-4, then n-6 down to 0
    while k <= n - 3
        invariant
            1 <= k <= n - 2,
            7 <= n <= 12,
            n == v@.len(),
            d == v@.subrange(0, n - 5) + v@.subrange(n - 4, n - 2),
            forall|j: int| 0 <= j < n && j != n - 2 && j != n - 5 ==> is_digit(#[trigger] v@[j]),
            sum as int == cas_weighted_sum(d, k - 1),
            sum <= 81 * (k - 1),
        decreases n - 2 - k,
    {
        // the k-th digit from the right of d
        let pos: usize = if k <= 2 { n - 2 - k } else { n - 3 - k };
        let c = v[pos];
        proof {
            assert(d.len() == n - 3);
            assert(d[d.len() - k] == v@[pos as int]);
            assert(is_digit(v@[pos as int]));
        }
        let dv = (c as u32) - ('0' as u32);
        assert((k as u32) * dv <= 81) by (nonlinear_arith)
            requires k <= 9, dv <= 9;
        sum = sum + (k as u32) * dv;
        k = k + 1;
    }
    let check = (v[n - 1] as u32) - ('0' as u32);
    proof {
        assert(raw@ == v@);
        assert(v@.subrange(0, n - 5) + v@.subrange(n - 4, n - 2) == d);
    }
    sum % 10 == check
}

/// A CAS Registry Number as supplied, with whether its checksum holds. A
/// malformed number is recorded, not rejected: matching never goes by CAS.
#[derive(Debug, Clone, PartialEq, Eq)]
pub struct CasNumber {
    pub raw: String,
    pub checksum_verified: bool,
}

impl CasNumber {
    pub fn new(raw: &str) -> (r: CasNumber)
        ensures
            r.raw@ == raw@,
            r.checksum_verified == cas_valid(raw@),
    {
        CasNumber { raw: String::from_str(raw), checksum_verified: cas_checksum_valid(raw) }
    }
}

#[derive(Debug, Clone, Copy, PartialEq, Eq, Structural, PartialOrd, Ord)]
pub enum AvailabilityStatus {
    InStock,
    LimitedStock,
    BackOrdered,
    MadeToOrder,
    Discontinued,
}

/// The status named by `s`, ignoring surrounding whitespace and ASCII case.
pub open spec fn availability_named(s: Seq<char>) -> Option<AvailabilityStatus> {
    let k = lowered(trimmed(s));
    if k == "in_stock"@ {
        Some(AvailabilityStatus::InStock)
    } else if k == "limited_stock"@ {
        Some(AvailabilityStatus::LimitedStock)
    } else if k == "back_ordered"@ {
        Some(AvailabilityStatus::BackOrdered)
    } else if k == "made_to_order"@ {
        Some(AvailabilityStatus::MadeToOrder)
    } else if k == "discontinued"@ {
        Some(AvailabilityStatus::Discontinued)
    } else {
        None
    }
}

pub fn parse_availability(s: &str) -> (r: Option<AvailabilityStatus>)
    ensures
        r == availability_named(s@),
{
    let t = trim_chars(&chars_of(s));
    let k = lower_chars(&t);
    if chars_eq(&k, "in_stock") {
        Some(AvailabilityStatus::InStock)
    } else if chars_eq(&k, "limited_stock") {
        Some(AvailabilityStatus::LimitedStock)
    } else if chars_eq(&k, "back_ordered") {
        Some(AvailabilityStatus::BackOrdered)
    } else if chars_eq(&k, "made_to_order") {
        Some(AvailabilityStatus::MadeToOrder)
    } else if chars_eq(&k, "discontinued") {
        Some(AvailabilityStatus::Discontinued)
    } else {
        None
    }
}

/// How an offer's data entered the catalog.
#[derive(Debug, Clone, Copy, PartialEq, Eq, PartialOrd, Ord)]
pub enum CommercialSourceType {
    UserSuppliedCsv,
    VendorExport,
    DistributorExport,
    ManuallyTranscribed,
    SyntheticFixture,
}

/// The source type named by `s`, ignoring surrounding whitespace and
/// ASCII case.
pub open spec fn source_type_named(s: Seq<char>) -> Option<CommercialSourceType> {
    let k = lowered(trimmed(s));
    if k == "user_supplied_csv"@ {
        Some(CommercialSourceType::UserSuppliedCsv)
    } else if k == "vendor_export"@ {
        Some(CommercialSourceType::VendorExport)
    } else if k == "distributor_export"@ {
        Some(CommercialSourceType::DistributorExport)
    } else if k == "manually_transcribed"@ {
        Some(CommercialSourceType::ManuallyTranscribed)
    } else if k == "synthetic_fixture"@ {
        Some(CommercialSourceType::SyntheticFixture)
    } else {
        None
    }
}

pub fn parse_source_type(s: &str) -> (r: Option<CommercialSourceType>)
    ensures
        r == source_type_named(s@),
{
    let t = trim_chars(&chars_of(s));
    let k = lower_chars(&t);
    if chars_eq(&k, "user_supplied_csv") {
        Some(CommercialSourceType::UserSuppliedCsv)
    } else if chars_eq(&k, "vendor_export") {
        Some(CommercialSourceType::VendorExport)
    } else if chars_eq(&k, "distributor_export") {
        Some(CommercialSourceType::DistributorExport)
    } else if chars_eq(&k, "manually_transcribed") {
        Some(CommercialSourceType::ManuallyTranscribed)
    } else if chars_eq(&k, "synthetic_fixture") {
        Some(CommercialSourceType::SyntheticFixture)
    } else {
        None
    }
}

/// The CSV columns a catalog load cannot proceed without.
pub open spec fn is_required_column(c: Seq<char>) -> bool {
    c == "offer_id"@ || c == "manufacturer"@ || c == "product_name"@ || c == "formula"@ || c == "source"@
}

/// The CSV columns a catalog load reads when present.
pub open spec fn is_optional_column(c: Seq<char>) -> bool {
    c == "purity_fraction"@ || c == "package_mass_g"@ || c == "price_minor_units"@ || c == "currency"@ || c == "availability"@ || c == "lead_time_days"@ || c == "particle_size_min_um"@ || c == "particle_size_max_um"@ || c == "cas_number"@ || c == "tags"@ || c == "catalog_number"@ || c == "grade"@ || c == "physical_form"@ || c == "country_region"@ || c == "product_url"@ || c == "notes"@ || c == "retrieved_at"@
}

/// A canonical catalog column name.
pub open spec fn is_known_column(c: Seq<char>) -> bool {
    is_required_column(c) || is_optional_column(c)
}

/// Whether `v` spells a canonical column name.
pub fn known_column(v: &Vec<char>) -> (r: bool)
    ensures
        r == is_known_column(v@),
{
    (chars_eq(v, "offer_id") || chars_eq(v, "manufacturer") || chars_eq(v, "product_name") || chars_eq(v, "formula") || chars_eq(v, "source")) || (chars_eq(v, "purity_fraction") || chars_eq(v, "package_mass_g") || chars_eq(v, "price_minor_units") || chars_eq(v, "currency") || chars_eq(v, "availability") || chars_eq(v, "lead_time_days") || chars_eq(v, "particle_size_min_um") || chars_eq(v, "particle_size_max_um") || chars_eq(v, "cas_number") || chars_eq(v, "tags") || chars_eq(v, "catalog_number") || chars_eq(v, "grade") || chars_eq(v, "physical_form") || chars_eq(v, "country_region") || chars_eq(v, "product_url") || chars_eq(v, "notes") || chars_eq(v, "retrieved_at"))
}

#[derive(Debug, Clone, PartialEq, Eq)]
pub struct OfferProvenance {
    pub source_type: CommercialSourceType,
    pub source_identifier: String,
    /// Caller-supplied; the catalog never reads the clock.
    pub retrieved_at: Option<String>,
    pub supplied_by: Option<String>,
    pub license_or_terms: Option<String>,
    pub checksum: Option<String>,
}

/// The views of an entry list.
pub open spec fn entry_views(s: Seq<(String, String)>) -> Seq<(Seq<char>, Seq<char>)> {
    s.map_values(|e: (String, String)| (e.0@, e.1@))
}

/// Where `key` first occurs among the entries, or `entries.len()`.
pub open spec fn key_position(entries: Seq<(Seq<char>, Seq<char>)>, key: Seq<char>) -> int
    decreases entries.len(),
{
    if entries.len() == 0 {
        0
    } else if key_position(entries.drop_last(), key) < entries.len() - 1 {
        key_position(entries.drop_last(), key)
    } else if entries.last().0 == key {
        entries.len() - 1
    } else {
        entries.len() as int
    }
}

/// Entries keyed like a map: a later entry for a key replaces the value of
/// the earlier one in place; keys keep their first position.
pub open spec fn keyed(entries: Seq<(Seq<char>, Seq<char>)>) -> Seq<(Seq<char>, Seq<char>)>
    decreases entries.len(),
{
    if entries.len() == 0 {
        Seq::empty()
    } else {
        let prev = keyed(entries.drop_last());
        let e = entries.last();
        let p = key_position(prev, e.0);
        if p < prev.len() {
            prev.update(p, e)
        } else {
            prev.push(e)
        }
    }
}

/// A column map is invalid when it names an unknown canonical column or
/// gives one external header to two canonical columns.
pub open spec fn column_map_invalid(m: Seq<(Seq<char>, Seq<char>)>) -> bool {
    (exists|i: int| 0 <= i < m.len() && !is_known_column(#[trigger] m[i].0)) || exists|i: int, j: int|
        0 <= i < j < m.len() && #[trigger] m[i].1 == #[trigger] m[j].1
}

/// A mapping from canonical CSV column names to the header names a
/// supplier's export actually uses; only the columns that differ need an
/// entry.
#[derive(Debug, Clone, PartialEq, Eq)]
pub struct CommercialCatalogColumnMap(Vec<(String, String)>);

impl CommercialCatalogColumnMap {
    /// The canonical -> external entries, one per canonical name.
    pub closed spec fn entries(self) -> Seq<(Seq<char>, Seq<char>)> {
        entry_views(self.0@)
    }

    /// `map` is canonical name -> external header, read like a map (a
    /// later entry for a canonical name replaces the earlier one). Rejects
    /// an unknown canonical name and a non-injective map.
    pub fn new(map: Vec<(String, String)>) -> (r: Result<CommercialCatalogColumnMap, CommercialCatalogError>)
        ensures
            r is Err <==> column_map_invalid(keyed(entry_views(map@))),
            r is Err ==> r->Err_0 is InvalidColumnMap,
            r matches Ok(cm) ==> cm.entries() == keyed(entry_views(map@)),
    {
        let mut out: Vec<(String, String)> = Vec::new();
        let mut i: usize = 0;
        while i < map.len()
            invariant
                i <= map@.len(),
                entry_views(out@) == keyed(entry_views(map@.take(i as int))),
            decreases map@.len() - i,
        {
            let ghost prev = entry_views(out@);
            let (k, v) = (&map[i].0, &map[i].1);
            let mut p: usize = 0;
            while p < out.len() && out[p].0 != *k
                invariant
                    p <= out@.len(),
                    prev == entry_views(out@),
                    forall|q: int| 0 <= q < p ==> (#[trigger] prev[q]).0 != k@,
                decreases out@.len() - p,
            {
                p = p + 1;
            }
            proof {
                assert(entry_views(map@.take(i + 1)).drop_last() =~= entry_views(map@.take(i as int)));
                assert(entry_views(map@.take(i + 1)).last() == (k@, v@));
                lemma_key_position(prev, k@, p as int);
            }
            let entry = (String::from_str(k.as_str()), String::from_str(v.as_str()));
            if p < out.len() {
                out.set(p, entry);
            } else {
                out.push(entry);
            }
            proof {
                assert(entry_views(out@) =~= keyed(entry_views(map@.take(i + 1))));
            }
            i = i + 1;
        }
        assert(map@.take(i as int) =~= map@);
        let ghost m = entry_views(out@);
        let mut j: usize = 0;
        while j < out.len()
            invariant
                j <= out@.len(),
                m == entry_views(out@),
                m == keyed(entry_views(map@)),
                forall|q: int| 0 <= q < j ==> is_known_column((#[trigger] m[q]).0),
                forall|a: int, b: int| 0 <= a < b < j ==> #[trigger] m[a].1 != #[trigger] m[b].1,
            decreases out@.len() - j,
        {
            let name = chars_of(out[j].0.as_str());
            if !known_column(&name) {
                assert(!is_known_column(m[j as int].0));
                return Err(CommercialCatalogError::InvalidColumnMap {
                    reason: String::from_str("a name is not a known canonical column name"),
                });
            }
            let mut q: usize = 0;
            while q < j
                invariant
                    q <= j,
                    j < out@.len(),
                    m == entry_views(out@),
                    m == keyed(entry_views(map@)),
                    forall|a: int| 0 <= a < q ==> (#[trigger] m[a]).1 != m[j as int].1,
                decreases j - q,
            {
                if out[q].1 == out[j].1 {
                    assert(m[q as int].1 == m[j as int].1);
                    return Err(CommercialCatalogError::InvalidColumnMap {
                        reason: String::from_str("an external header is claimed by more than one canonical column"),
                    });
                }
                q = q + 1;
            }
            j = j + 1;
        }
        Ok(CommercialCatalogColumnMap(out))
    }

    /// External header -> canonical column, one pair per entry.
    pub fn canonical_by_external(&self) -> (r: Vec<(String, String)>)
        ensures
            r@.len() == self.entries().len(),
            forall|i: int|
                0 <= i < r@.len() ==> (#[trigger] r@[i]).0@ == self.entries()[i].1 && r@[i].1@
                    == self.entries()[i].0,
    {
        let mut out: Vec<(String, String)> = Vec::new();
        let mut i: usize = 0;
        while i < self.0.len()
            invariant
                i <= self.0@.len(),
                out@.len() == i,
                forall|k: int|
                    0 <= k < i ==> (#[trigger] out@[k]).0@ == self.0@[k].1@ && out@[k].1@
                        == self.0@[k].0@,
            decreases self.0@.len() - i,
        {
            out.push((String::from_str(self.0[i].1.as_str()), String::from_str(self.0[i].0.as_str())));
            i = i + 1;
        }
        out
    }
}

proof fn lemma_key_position(prev: Seq<(Seq<char>, Seq<char>)>, key: Seq<char>, p: int)
    requires
        0 <= p <= prev.len(),
        forall|q: int| 0 <= q < p ==> (#[trigger] prev[q]).0 != key,
        p < prev.len() ==> prev[p].0 == key,
    ensures
        key_position(prev, key) == p,
    decreases prev.len(),
{
    if prev.len() > 0 {
        let t = prev.drop_last();
        if p < prev.len() - 1 {
            assert forall|q: int| 0 <= q < p implies (#[trigger] t[q]).0 != key by {
                assert(t[q] == prev[q]);
            }
            assert(t[p] == prev[p]);
            lemma_key_position(t, key, p);
        } else {
            assert forall|q: int| 0 <= q < t.len() implies (#[trigger] t[q]).0 != key by {
                assert(t[q] == prev[q]);
            }
            lemma_key_position(t, key, t.len() as int);
        }
    }
}

#[derive(Debug, Clone, Copy, PartialEq, Eq)]
pub enum CommercialCatalogLoadMode {
    Strict,
    Lenient,
}

/// A catalog row the loader refused, with the field and value at fault.
#[derive(Debug, Clone, PartialEq, Eq)]
pub struct RejectedOffer {
    pub row: usize,
    pub offer_id: String,
    pub field: String,
    pub reason: String,
    pub original_value: String,
}

#[derive(Debug, Clone, PartialEq, Eq)]
pub struct CommercialCatalogLoadReport {
    pub accepted: usize,
    pub duplicate_offer_ids_collapsed: usize,
    pub rejected: Vec<RejectedOffer>,
}

/// What a hard-constrained field an offer does not report means.
#[derive(Debug, Clone, Copy, PartialEq, Eq)]
pub enum MissingCommercialDataPolicy {
    /// The offer is excluded: an unverifiable constraint counts as unmet.
    Reject,
    /// Only the fields the offer reports are checked.
    KeepWithWarning,
}

impl Default for MissingCommercialDataPolicy {
    fn default() -> (r: MissingCommercialDataPolicy)
        ensures
            r == MissingCommercialDataPolicy::Reject,
    {
        MissingCommercialDataPolicy::Reject
    }
}

/// Named procurement-combination ranking policies.
#[derive(Debug, Clone, Copy, PartialEq, Eq)]
pub enum CommercialRankingPolicy {
    Balanced,
    CostFirst,
    LeadTimeFirst,
    PurityFirst,
    MinimumUnresolvedData,
    Pareto,
}

impl Default for CommercialRankingPolicy {
    fn default() -> (r: CommercialRankingPolicy)
        ensures
            r == CommercialRankingPolicy::Balanced,
    {
        CommercialRankingPolicy::Balanced
    }
}

/// Bounds on the procurement-combination search.
#[derive(Debug, Clone, PartialEq, Eq)]
pub struct CommercialPlanningConfig {
    pub max_offers_per_precursor: usize,
    pub max_combinations_evaluated: usize,
    pub max_results_returned: usize,
}

impl Default for CommercialPlanningConfig {
    /// Documented starting bounds.
    fn default() -> (r: CommercialPlanningConfig)
        ensures
            r.max_offers_per_precursor == 50,
            r.max_combinations_evaluated == 10000,
            r.max_results_returned == 5,
    {
        CommercialPlanningConfig {
            max_offers_per_precursor: 50,
            max_combinations_evaluated: 10_000,
            max_results_returned: 5,
        }
    }
}

#[derive(Debug, Clone, Copy, PartialEq, Eq, PartialOrd, Ord)]
pub enum CommercialExclusionCode {
    PurityBelowMinimum,
    ManufacturerNotAllowed,
    LeadTimeExceedsMaximum,
    MissingConstrainedField,
    PriceRequiredButUnknown,
    PackageSizeRequiredButUnknown,
    AvailabilityExcluded,
    RequiredTagMissing,
    ExcludedTagPresent,
    CurrencyNotAllowed,
    PhysicalFormNotAllowed,
    OfferCountCapExceeded,
    EvaluationBudgetExhausted,
    CostOverflow,
}

/// Why an offer (or, with no offer, a whole precursor row) was excluded.
#[derive(Debug, Clone, PartialEq, Eq)]
pub struct CommercialExclusion {
    pub precursor: PrecursorId,
    pub offer_id: Option<CommercialOfferId>,
    pub reason_codes: Vec<CommercialExclusionCode>,
    pub explanation: String,
}

/// A warning of the commercial assessment, kept apart from the planning
/// warnings that scoring reads.
#[derive(Debug, Clone, PartialEq, Eq)]
pub struct CommercialWarning {
    pub message: String,
    pub severity: WarningSeverity,
}

#[derive(Debug, Clone, PartialEq, Eq)]
pub struct SearchBudgetSummary {
    pub combinations_evaluated: usize,
    pub combinations_omitted: u64,
    /// `false` when the evaluation budget was hit or a row was truncated.
    pub is_exhaustive: bool,
}

/// An offer field the assessment could not resolve.
#[derive(Debug, Clone, PartialEq, Eq)]
pub struct UnresolvedCommercialField {
    pub precursor: PrecursorId,
    pub offer_id: CommercialOfferId,
    pub field: &'static str,
}

/// One supplier's offer of a precursor.
#[derive(Debug, Clone, PartialEq, Eq)]
pub struct CommercialPrecursorOffer {
    pub offer_id: CommercialOfferId,
    pub manufacturer: String,
    pub product_name: String,
    pub composition: Composition,
    pub provenance: OfferProvenance,
    /// The formula as the catalog spelled it, kept for display.
    pub formula: String,
    pub catalog_number: Option<String>,
    pub cas_number: Option<CasNumber>,
    pub grade: Option<String>,
    pub purity: Option<PurityFraction>,
    pub package_mass: Option<PackageMass>,
    pub unit_price: Option<Money>,
    pub availability: Option<AvailabilityStatus>,
    pub lead_time_days: Option<u32>,
    pub physical_form: Option<String>,
    pub particle_size_range_um: Option<ParticleSizeRangeUm>,
    pub country_region: Option<String>,
    /// Stored, never fetched.
    pub product_url: Option<String>,
    pub tags: Vec<String>,
    pub notes: Option<String>,
}

/// The identifier of an offer, as text.
pub open spec fn offer_key(o: CommercialPrecursorOffer) -> Seq<char> {
    o.offer_id.0@
}

/// Identifiers in strictly increasing text order.
pub open spec fn sorted_by_id(s: Seq<CommercialPrecursorOffer>) -> bool {
    forall|i: int, j: int|
        0 <= i < j < s.len() ==> seq_le(offer_key(#[trigger] s[i]), offer_key(#[trigger] s[j]))
            && offer_key(s[i]) != offer_key(s[j])
}

/// `s[k]` is the first offer with its identifier.
pub open spec fn first_with_id(s: Seq<CommercialPrecursorOffer>, k: int) -> bool {
    forall|j: int| 0 <= j < k ==> offer_key(#[trigger] s[j]) != offer_key(s[k])
}

/// Every offer's composition is well formed.
pub open spec fn compositions_wf(s: Seq<CommercialPrecursorOffer>) -> bool {
    forall|i: int| 0 <= i < s.len() ==> (#[trigger] s[i]).composition.wf()
}

/// Whether `a` sorts strictly before `b`.
pub(crate) fn text_lt(a: &String, b: &String) -> (r: bool)
    ensures
        r == (seq_le(a@, b@) && a@ != b@),
{
    let va = chars_of(a.as_str());
    let vb = chars_of(b.as_str());
    let le = chars_le(&va, &vb);
    let same = chars_le(&vb, &va);
    proof {
        if le && same {
            lemma_seq_le_antisym(a@, b@);
        }
    }
    le && !same
}

/// `src[i]` is where `out[i]` came from: the first offer of `orig[..k]`
/// with its identifier.
spec fn kept_from(orig: Seq<CommercialPrecursorOffer>, out: Seq<CommercialPrecursorOffer>, k: int, src: Seq<int>) -> bool {
    &&& src.len() == out.len()
    &&& forall|i: int|
        0 <= i < out.len() ==> 0 <= #[trigger] src[i] < k && orig[src[i]] == out[i]
            && first_with_id(orig, src[i])
}

/// `pos[k0]` is where the identifier of `orig[k0]` sits in `out`, for
/// every `k0 < k`.
spec fn covers(orig: Seq<CommercialPrecursorOffer>, out: Seq<CommercialPrecursorOffer>, k: int, pos: Seq<int>) -> bool {
    &&& pos.len() == k
    &&& forall|k0: int|
        0 <= k0 < k ==> 0 <= #[trigger] pos[k0] < out.len() && offer_key(out[pos[k0]]) == offer_key(orig[k0])
}

/// Dropping `orig[k]`, whose identifier `out[p]` already has.
proof fn lemma_step_skip(
    orig: Seq<CommercialPrecursorOffer>,
    out: Seq<CommercialPrecursorOffer>,
    k: int,
    p: int,
    src: Seq<int>,
    pos: Seq<int>,
)
    requires
        0 <= k < orig.len(),
        0 <= p < out.len(),
        offer_key(out[p]) == offer_key(orig[k]),
        kept_from(orig, out, k, src),
        covers(orig, out, k, pos),
    ensures
        kept_from(orig, out, k + 1, src),
        covers(orig, out, k + 1, pos.push(p)),
{
    assert forall|k0: int| 0 <= k0 < k + 1 implies 0 <= #[trigger] pos.push(p)[k0] < out.len()
        && offer_key(out[pos.push(p)[k0]]) == offer_key(orig[k0]) by {
        if k0 < k {
            assert(pos.push(p)[k0] == pos[k0]);
        }
    }
}

/// The position of an entry of `o0` once `x` is inserted at `p`.
spec fn shifted(j: int, p: int) -> int {
    if j < p {
        j
    } else {
        j + 1
    }
}

/// Inserting `orig[k]` at `p`, where everything before `p` sorts strictly
/// before it and the offer at `p` (if any) sorts no earlier and has
/// another identifier.
proof fn lemma_step_insert(
    orig: Seq<CommercialPrecursorOffer>,
    o0: Seq<CommercialPrecursorOffer>,
    k: int,
    p: int,
    src: Seq<int>,
    pos: Seq<int>,
)
    requires
        0 <= k < orig.len(),
        0 <= p <= o0.len(),
        sorted_by_id(o0),
        compositions_wf(o0),
        orig[k].composition.wf(),
        forall|i: int| 0 <= i < p ==> seq_le(offer_key(#[trigger] o0[i]), offer_key(orig[k]))
            && offer_key(o0[i]) != offer_key(orig[k]),
        p < o0.len() ==> seq_le(offer_key(orig[k]), offer_key(o0[p])) && offer_key(o0[p]) != offer_key(orig[k]),
        kept_from(orig, o0, k, src),
        covers(orig, o0, k, pos),
    ensures
        sorted_by_id(o0.insert(p, orig[k])),
        compositions_wf(o0.insert(p, orig[k])),
        kept_from(orig, o0.insert(p, orig[k]), k + 1, src.insert(p, k)),
        covers(
            orig,
            o0.insert(p, orig[k]),
            k + 1,
            Seq::new(k as nat, |k0: int| shifted(pos[k0], p)).push(p),
        ),
{
    let x = orig[k];
    let out = o0.insert(p, x);
    if p < o0.len() {
        assert forall|j: int| p <= j < o0.len() implies seq_le(offer_key(x), offer_key(#[trigger] o0[j]))
            && offer_key(o0[j]) != offer_key(x) by {
            if j > p {
                lemma_seq_le_trans(offer_key(x), offer_key(o0[p]), offer_key(o0[j]));
                if offer_key(o0[j]) == offer_key(x) {
                    lemma_seq_le_antisym(offer_key(x), offer_key(o0[p]));
                }
            }
        }
    }
    assert(first_with_id(orig, k)) by {
        assert forall|j: int| 0 <= j < k implies offer_key(#[trigger] orig[j]) != offer_key(orig[k]) by {
            let i = pos[j];
            assert(offer_key(o0[i]) == offer_key(orig[j]));
            if i >= p {
                assert(offer_key(o0[i]) != offer_key(x));
            }
        }
    }
    assert forall|i: int, j: int| 0 <= i < j < out.len() implies seq_le(
        offer_key(#[trigger] out[i]),
        offer_key(#[trigger] out[j]),
    ) && offer_key(out[i]) != offer_key(out[j]) by {
        if j < p {
            assert(out[i] == o0[i] && out[j] == o0[j]);
        } else if j == p {
            assert(out[i] == o0[i]);
        } else if i < p {
            assert(out[i] == o0[i] && out[j] == o0[j - 1]);
            lemma_seq_le_trans(offer_key(o0[i]), offer_key(x), offer_key(o0[j - 1]));
            if offer_key(o0[i]) == offer_key(o0[j - 1]) {
                lemma_seq_le_antisym(offer_key(x), offer_key(o0[i]));
            }
        } else if i == p {
            assert(out[j] == o0[j - 1]);
        } else {
            assert(out[i] == o0[i - 1] && out[j] == o0[j - 1]);
        }
    }
    assert forall|i: int| 0 <= i < out.len() implies (#[trigger] out[i]).composition.wf() by {
        if i < p {
            assert(out[i] == o0[i]);
        } else if i > p {
            assert(out[i] == o0[i - 1]);
        }
    }
    let src2 = src.insert(p, k);
    assert forall|i: int| 0 <= i < out.len() implies 0 <= #[trigger] src2[i] < k + 1 && orig[src2[i]]
        == out[i] && first_with_id(orig, src2[i]) by {
        if i < p {
            assert(out[i] == o0[i] && src2[i] == src[i]);
        } else if i > p {
            assert(out[i] == o0[i - 1] && src2[i] == src[i - 1]);
        }
    }
    let pos2 = Seq::new(k as nat, |k0: int| shifted(pos[k0], p)).push(p);
    assert forall|k0: int| 0 <= k0 < k + 1 implies 0 <= #[trigger] pos2[k0] < out.len() && offer_key(
        out[pos2[k0]],
    ) == offer_key(orig[k0]) by {
        if k0 < k {
            let j = pos[k0];
            assert(pos2[k0] == shifted(j, p));
            if j < p {
                assert(out[j] == o0[j]);
            } else {
                assert(out[j + 1] == o0[j]);
            }
        }
    }
}

/// Where the first offer with identifier `key` sits in `s`, or `s.len()`.
pub open spec fn first_index_with_key(s: Seq<CommercialPrecursorOffer>, key: Seq<char>) -> int
    decreases s.len(),
{
    if s.len() == 0 {
        0
    } else if first_index_with_key(s.drop_last(), key) < s.len() - 1 {
        first_index_with_key(s.drop_last(), key)
    } else if offer_key(s.last()) == key {
        s.len() - 1
    } else {
        s.len() as int
    }
}

/// The first index with `key` is at most any index with it, and names an
/// offer with it.
proof fn lemma_first_index_le(s: Seq<CommercialPrecursorOffer>, key: Seq<char>, w: int)
    requires
        0 <= w < s.len(),
        offer_key(s[w]) == key,
    ensures
        first_index_with_key(s, key) <= w,
        0 <= first_index_with_key(s, key) < s.len(),
        offer_key(s[first_index_with_key(s, key)]) == key,
    decreases s.len(),
{
    let t = s.drop_last();
    if w < s.len() - 1 {
        assert(t[w] == s[w]);
        lemma_first_index_le(t, key, w);
        assert(s[first_index_with_key(t, key)] == t[first_index_with_key(t, key)]);
    } else {
        lemma_first_index_range(t, key);
        if first_index_with_key(t, key) < t.len() {
            assert(s[first_index_with_key(t, key)] == t[first_index_with_key(t, key)]);
        }
    }
}

/// The first index with `key` is in `0..=s.len()`, and where it is below
/// `s.len()` it names an offer with that identifier.
proof fn lemma_first_index_range(s: Seq<CommercialPrecursorOffer>, key: Seq<char>)
    ensures
        0 <= first_index_with_key(s, key) <= s.len(),
        first_index_with_key(s, key) < s.len() ==> offer_key(s[first_index_with_key(s, key)]) == key,
    decreases s.len(),
{
    if s.len() > 0 {
        let t = s.drop_last();
        lemma_first_index_range(t, key);
        if first_index_with_key(t, key) < t.len() {
            assert(s[first_index_with_key(t, key)] == t[first_index_with_key(t, key)]);
        }
    }
}

/// The first offer with a given identifier is found at its own index.
proof fn lemma_first_index_eq(s: Seq<CommercialPrecursorOffer>, w: int)
    requires
        0 <= w < s.len(),
        first_with_id(s, w),
    ensures
        first_index_with_key(s, offer_key(s[w])) == w,
{
    let key = offer_key(s[w]);
    lemma_first_index_le(s, key, w);
    let f = first_index_with_key(s, key);
    if f < w {
        assert(offer_key(s[f]) != offer_key(s[w]));
    }
}

/// With every offer read, the witnesses give the two halves of the
/// catalog's contract.
proof fn lemma_kept_and_covered(orig: Seq<CommercialPrecursorOffer>, kept: Seq<CommercialPrecursorOffer>, src: Seq<int>, pos: Seq<int>)
    requires
        kept_from(orig, kept, orig.len() as int, src),
        covers(orig, kept, orig.len() as int, pos),
    ensures
        forall|i: int| 0 <= i < kept.len() ==> first_index_with_key(orig, offer_key(#[trigger] kept[i]))
            < orig.len() && orig[first_index_with_key(orig, offer_key(kept[i]))] == kept[i],
        forall|k: int| 0 <= k < orig.len() ==> first_index_with_key(kept, offer_key(#[trigger] orig[k]))
            < kept.len(),
{
    assert forall|i: int| 0 <= i < kept.len() implies first_index_with_key(orig, offer_key(#[trigger] kept[i]))
        < orig.len() && orig[first_index_with_key(orig, offer_key(kept[i]))] == kept[i] by {
        let w = src[i];
        lemma_first_index_eq(orig, w);
    }
    assert forall|k: int| 0 <= k < orig.len() implies first_index_with_key(kept, offer_key(#[trigger] orig[k]))
        < kept.len() by {
        let w = pos[k];
        lemma_first_index_le(kept, offer_key(orig[k]), w);
    }
}

/// A catalog of offers, one per identifier, in identifier order.
pub struct CommercialPrecursorCatalog {
    offers: Vec<CommercialPrecursorOffer>,
}

impl View for CommercialPrecursorCatalog {
    type V = Seq<CommercialPrecursorOffer>;

    closed spec fn view(&self) -> Seq<CommercialPrecursorOffer> {
        self.offers@
    }
}

impl CommercialPrecursorCatalog {
    #[verifier::type_invariant]
    spec fn well_formed(self) -> bool {
        sorted_by_id(self.offers@) && compositions_wf(self.offers@)
    }

    /// Builds a catalog keeping, for each identifier, the first offer
    /// given with it, ordered by identifier; the report counts the offers
    /// kept and the later duplicates dropped.
    pub fn from_offers(offers: Vec<CommercialPrecursorOffer>) -> (r: (CommercialPrecursorCatalog, CommercialCatalogLoadReport))
        requires
            compositions_wf(offers@),
        ensures
            sorted_by_id(r.0@),
            forall|i: int|
                0 <= i < r.0@.len() ==> first_index_with_key(offers@, offer_key(#[trigger] r.0@[i]))
                    < offers@.len() && offers@[first_index_with_key(offers@, offer_key(r.0@[i]))]
                    == r.0@[i],
            forall|k: int|
                0 <= k < offers@.len() ==> first_index_with_key(r.0@, offer_key(#[trigger] offers@[k]))
                    < r.0@.len(),
            r.1.accepted == r.0@.len(),
            r.1.duplicate_offer_ids_collapsed == offers@.len() - r.0@.len(),
            r.1.rejected@.len() == 0,
    {
        let ghost orig = offers@;
        let total = offers.len();
        let mut rest = offers;
        let mut out: Vec<CommercialPrecursorOffer> = Vec::new();
        let mut collapsed: usize = 0;
        let mut k: usize = 0;
        let ghost mut src: Seq<int> = Seq::empty();
        let ghost mut pos: Seq<int> = Seq::empty();
        while rest.len() > 0
            invariant
                k + rest@.len() == orig.len(),
                orig.len() == total,
                rest@ == orig.subrange(k as int, orig.len() as int),
                compositions_wf(orig),
                sorted_by_id(out@),
                compositions_wf(out@),
                kept_from(orig, out@, k as int, src),
                covers(orig, out@, k as int, pos),
                collapsed + out@.len() == k,
            decreases rest@.len(),
        {
            let ghost r0 = rest@;
            let x = rest.remove(0);
            assert(x == orig[k as int]);
            assert(rest@ =~= orig.subrange(k + 1, orig.len() as int)) by {
                assert forall|i: int| 0 <= i < rest@.len() implies rest@[i] == orig[k + 1 + i] by {
                    assert(rest@[i] == r0[i + 1]);
                }
            }
            let mut p: usize = 0;
            while p < out.len() && text_lt(&out[p].offer_id.0, &x.offer_id.0)
                invariant
                    p <= out@.len(),
                    forall|i: int| 0 <= i < p ==> seq_le(offer_key(#[trigger] out@[i]), offer_key(x))
                        && offer_key(out@[i]) != offer_key(x),
                decreases out@.len() - p,
            {
                p = p + 1;
            }
            let ghost o0 = out@;
            proof {
                if p < o0.len() {
                    lemma_seq_le_total(offer_key(o0[p as int]), offer_key(x));
                }
            }
            if p < out.len() && out[p].offer_id.0 == x.offer_id.0 {
                collapsed = collapsed + 1;
                proof {
                    lemma_step_skip(orig, o0, k as int, p as int, src, pos);
                    pos = pos.push(p as int);
                }
            } else {
                proof {
                    lemma_step_insert(orig, o0, k as int, p as int, src, pos);
                    src = src.insert(p as int, k as int);
                    pos = Seq::new(k as nat, |k0: int| shifted(pos[k0], p as int)).push(p as int);
                }
                out.insert(p, x);
                assert(out@ == o0.insert(p as int, x));
            }
            k = k + 1;
        }
        proof {
            lemma_kept_and_covered(orig, out@, src, pos);
        }
        let accepted = out.len();
        let ghost kept = out@;
        let catalog = CommercialPrecursorCatalog { offers: out };
        assert(catalog@ == kept);
        let report = CommercialCatalogLoadReport {
            accepted,
            duplicate_offer_ids_collapsed: collapsed,
            rejected: Vec::new(),
        };
        (catalog, report)
    }

    /// The offers, in identifier order.
    pub fn offers(&self) -> (r: &[CommercialPrecursorOffer])
        ensures
            r@ == self@,
            sorted_by_id(self@),
            compositions_wf(self@),
    {
        proof {
            use_type_invariant(self);
        }
        self.offers.as_slice()
    }

    /// The offer with identifier `id`, if any.
    pub fn get(&self, id: &CommercialOfferId) -> (r: Option<&CommercialPrecursorOffer>)
        ensures
            r is None <==> forall|i: int| 0 <= i < self@.len() ==> offer_key(#[trigger] self@[i]) != id.0@,
            r matches Some(o) ==> exists|i: int| 0 <= i < self@.len() && self@[i] == *o && offer_key(#[trigger] self@[i]) == id.0@,
    {
        let mut i: usize = 0;
        while i < self.offers.len()
            invariant
                i <= self@.len(),
                forall|j: int| 0 <= j < i ==> offer_key(#[trigger] self@[j]) != id.0@,
            decreases self@.len() - i,
        {
            if self.offers[i].offer_id.0 == id.0 {
                return Some(&self.offers[i]);
            }
            i = i + 1;
        }
        None
    }
}

/// What a caller asks of the offers for one plan: hard constraints, a
/// cost ceiling, and how to treat a constrained field an offer does not
/// report. Collections are read as sets: only membership matters.
#[derive(Debug, Clone, PartialEq, Eq)]
pub struct CommercialPlanningRequest {
    /// Which product of the plan's reaction is the target; needed only with
    /// a batch mass.
    pub target_composition: Option<Composition>,
    pub target_batch_mass_grams: Option<Frac>,
    pub allowed_manufacturers: Option<Vec<String>>,
    pub excluded_manufacturers: Vec<String>,
    pub min_purity: Option<PurityFraction>,
    pub max_lead_time_days: Option<u32>,
    /// `None` is unrestricted, discontinued offers included.
    pub allowed_availability_statuses: Option<Vec<AvailabilityStatus>>,
    pub allowed_physical_forms: Option<Vec<String>>,
    pub required_tags: Vec<String>,
    pub excluded_tags: Vec<String>,
    /// A total in another currency, or unknown, cannot be checked against
    /// it and is kept with a warning.
    pub max_total_cost: Option<Money>,
    pub allowed_currencies: Option<Vec<CurrencyCode>>,
    pub require_known_price: bool,
    pub require_known_package_size: bool,
    pub missing_data_policy: MissingCommercialDataPolicy,
}

/// One precursor row's chosen offer, with its quantities and cost.
#[derive(Debug, Clone, PartialEq, Eq)]
pub struct CommercialOfferSelection {
    pub precursor: PrecursorId,
    pub precursor_composition: Composition,
    pub reaction_coefficient: u64,
    pub offer_id: CommercialOfferId,
    /// The stoichiometric requirement, purity-agnostic; never a yield.
    pub theoretical_pure_mass_required_grams: Frac,
    /// `None` when the offer's purity is unknown.
    pub purity: Option<PurityFraction>,
    pub purity_adjusted_purchase_mass_grams: Option<Frac>,
    /// `None` when the offer's package mass is unknown.
    pub package_count: Option<u64>,
    pub purchased_mass_grams: Option<Frac>,
    pub excess_mass_grams: Option<Frac>,
    /// `None` when the price or package size is unknown, or the product
    /// overflowed; never zero by default.
    pub subtotal: Option<Money>,
    pub unresolved_fields: Vec<&'static str>,
    pub assumptions: Vec<String>,
    pub warnings: Vec<CommercialWarning>,
}

/// One offer per precursor row, with the combination's totals.
#[derive(Debug, Clone, PartialEq, Eq)]
pub struct CommercialCombination {
    /// The offer identifiers in row order, joined with `|`.
    pub combination_id: String,
    pub selections: Vec<CommercialOfferSelection>,
    /// Known only when every subtotal is known and all share one currency.
    pub total_cost: Option<Money>,
    pub all_costs_known: bool,
    /// `None` when some lead time is unknown.
    pub max_lead_time_days: Option<u32>,
    /// `true` unless some selected offer is explicitly discontinued; an
    /// unreported availability is not evidence against procurement.
    pub all_availability_acceptable: bool,
    /// The lowest purity; `None` when some purity is unknown.
    pub min_purity: Option<PurityFraction>,
    /// `None` when some excess mass is unknown.
    pub total_excess_mass_grams: Option<Frac>,
}

} // verus!
