//! Two-line element sets and the mean elements read from them.
use vstd::prelude::*;

use crate::fields::{
    assumed_point_field, decimal_field, exponent_field, integer_field, pow10, pow10_u64,
    read_assumed_point, read_decimal, read_exponent_form, read_integer, read_unsigned, trim,
    trim_bounds, unsigned_field, Decimal, is_digit, all_digits, lemma_trim_keeps, in_unit_interval,
};

verus! {

/// How a driving loop chooses the offsets it propagates to.
#[derive(Clone, Copy, Debug, PartialEq, Eq, Structural)]
pub enum TypeRun {
    Catalog,
    Verification,
    FromJD,
    Manual,
}

/// The security classification of an element set.
#[derive(Clone, Copy, Debug, PartialEq, Eq, Structural)]
pub enum Classification {
    Unclassified,
    Classified,
}

impl Classification {
    /// The classification that a `U` or `C` column names.
    pub fn from(c: char) -> (r: Option<Classification>)
        ensures
            r == classification_of(c),
    {
        match c {
            'U' => Some(Classification::Unclassified),
            'C' => Some(Classification::Classified),
            _ => None,
        }
    }
}

pub open spec fn classification_of(c: char) -> Option<Classification> {
    if c == 'U' {
        Some(Classification::Unclassified)
    } else if c == 'C' {
        Some(Classification::Classified)
    } else {
        None
    }
}

/// An element set that gives no classification is unclassified.
impl Default for Classification {
    fn default() -> (r: Classification)
        ensures
            r == Classification::Unclassified,
    {
        Classification::Unclassified
    }
}

/// The failures of reading, initializing and propagating an element set.
#[derive(Clone, Copy, Debug, PartialEq, Eq, Structural)]
pub enum PropagationError {
    InvalidElements,
    NegativeMeanMotion,
    EccentricityOutOfRange,
    NegativeSemilatusRectum,
    OrbitalDecay,
}

/// The two text lines of an element set.
#[derive(Debug)]
pub struct TLE {
    pub line1: String,
    pub line2: String,
}

impl TLE {
    pub fn new(line1: String, line2: String) -> (r: TLE)
        ensures
            r.line1@ == line1@,
            r.line2@ == line2@,
    {
        TLE { line1, line2 }
    }
}

/// The bytes of a line of text.
pub open spec fn line_bytes(s: Seq<char>) -> Seq<u8> {
    vstd::utf8::encode_utf8(s)
}

/// The classification column: `U`, `C`, or a space where none is given.
pub open spec fn classification_column(c: u8) -> Option<Option<Classification>> {
    if c == 85 {
        Some(Some(Classification::Unclassified))
    } else if c == 67 {
        Some(Some(Classification::Classified))
    } else if c == 32 {
        Some(None)
    } else {
        None
    }
}

/// The four-digit year of a two-digit epoch year: below 57 in the 2000s,
/// else in the 1900s.
pub open spec fn full_year(yy: nat) -> nat {
    if yy < 57 {
        yy + 2000
    } else {
        yy + 1900
    }
}

/// The Julian date at 0h of day `day` (January 1 is day 1) of `year`,
/// less one half.
pub open spec fn julian_day_start(year: int, day: int) -> int {
    367 * year - (7 * year) / 4 + 1721043 + day
}

/// The epoch as a split Julian date: that of 0h of its day, and the
/// fraction of the day, for a day of year `(mantissa, exponent)`.
pub open spec fn epoch_julian(year: int, days: (int, int)) -> ((int, int), (int, int)) {
    let scale = pow10((-days.1) as nat) as int;
    (((julian_day_start(year, days.0 / scale)) * 10 + 5, -1), (days.0 % scale, days.1))
}

/// The mean elements as the two lines write them, before any conversion of
/// units: angles in degrees, mean motion in revolutions per day.
pub struct MeanElements {
    pub satnum: u64,
    pub classification: Option<Classification>,
    pub intldesg: Vec<u8>,
    pub epochyr: u64,
    pub year: u64,
    pub epochdays: Decimal,
    pub ndot: Decimal,
    pub nddot: Decimal,
    pub bstar: Decimal,
    pub elnum: u64,
    pub inclo: Decimal,
    pub nodeo: Decimal,
    pub ecco: Decimal,
    pub argpo: Decimal,
    pub mo: Decimal,
    pub no_kozai: Decimal,
    pub revnum: u64,
    pub jdsatepoch: Decimal,
    pub jdsatepochf: Decimal,
}

/// Every field of the two lines reads as its kind.
pub open spec fn tle_valid(l1: Seq<u8>, l2: Seq<u8>) -> bool {
    &&& l1.len() >= 69
    &&& l2.len() >= 69
    &&& integer_field(l1.subrange(2, 7)).is_some()
    &&& classification_column(l1[7]).is_some()
    &&& integer_field(l1.subrange(18, 20)).is_some()
    &&& unsigned_field(l1.subrange(20, 32)).is_some()
    &&& decimal_field(l1.subrange(33, 43)).is_some()
    &&& exponent_field(l1.subrange(44, 52)).is_some()
    &&& exponent_field(l1.subrange(53, 61)).is_some()
    &&& integer_field(l1.subrange(64, 68)).is_some()
    &&& decimal_field(l2.subrange(8, 16)).is_some()
    &&& decimal_field(l2.subrange(17, 25)).is_some()
    &&& assumed_point_field(l2.subrange(26, 33)).is_some()
    &&& decimal_field(l2.subrange(34, 42)).is_some()
    &&& decimal_field(l2.subrange(43, 51)).is_some()
    &&& decimal_field(l2.subrange(52, 63)).is_some()
    &&& integer_field(l2.subrange(63, 68)).is_some()
}

/// `e` holds what the fields of the two lines write.
pub open spec fn tle_elements(e: MeanElements, l1: Seq<u8>, l2: Seq<u8>) -> bool {
    let epochyr = integer_field(l1.subrange(18, 20)).unwrap();
    let epochdays = unsigned_field(l1.subrange(20, 32)).unwrap();
    &&& e.satnum as nat == integer_field(l1.subrange(2, 7)).unwrap()
    &&& e.classification == classification_column(l1[7]).unwrap()
    &&& e.intldesg@ == trim(l1.subrange(9, 17))
    &&& e.epochyr as nat == epochyr
    &&& e.year as nat == full_year(epochyr)
    &&& e.epochdays@ == epochdays
    &&& e.ndot@ == decimal_field(l1.subrange(33, 43)).unwrap()
    &&& e.nddot@ == exponent_field(l1.subrange(44, 52)).unwrap()
    &&& e.bstar@ == exponent_field(l1.subrange(53, 61)).unwrap()
    &&& e.elnum as nat == integer_field(l1.subrange(64, 68)).unwrap()
    &&& e.inclo@ == decimal_field(l2.subrange(8, 16)).unwrap()
    &&& e.nodeo@ == decimal_field(l2.subrange(17, 25)).unwrap()
    &&& e.ecco@ == assumed_point_field(l2.subrange(26, 33)).unwrap()
    &&& e.argpo@ == decimal_field(l2.subrange(34, 42)).unwrap()
    &&& e.mo@ == decimal_field(l2.subrange(43, 51)).unwrap()
    &&& e.no_kozai@ == decimal_field(l2.subrange(52, 63)).unwrap()
    &&& e.revnum as nat == integer_field(l2.subrange(63, 68)).unwrap()
    &&& (e.jdsatepoch@, e.jdsatepochf@) == epoch_julian(full_year(epochyr) as int, epochdays)
}

fn read_classification(c: u8) -> (r: Option<Option<Classification>>)
    ensures
        r == classification_column(c),
{
    if c == 32 {
        return Some(None);
    }
    match Classification::from(c as char) {
        Some(k) => Some(Some(k)),
        None => None,
    }
}

/// The bytes `b[lo..hi]` with their spaces on both sides removed.
fn trimmed_bytes(b: &[u8], lo: usize, hi: usize) -> (r: Vec<u8>)
    requires
        lo <= hi <= b@.len(),
    ensures
        r@ == trim(b@.subrange(lo as int, hi as int)),
{
    let (s, e) = trim_bounds(b, lo, hi);
    let mut r: Vec<u8> = Vec::new();
    let mut i: usize = s;
    while i < e
        invariant
            s <= i <= e <= b@.len(),
            r@ == b@.subrange(s as int, i as int),
        decreases e - i,
    {
        r.push(b[i]);
        i = i + 1;
        assert(r@ =~= b@.subrange(s as int, i as int));
    }
    assert(r@ =~= b@.subrange(s as int, e as int));
    r
}

impl TLE {
    /// Reads the mean elements of the two lines. Fails with
    /// `InvalidElements`, and gives nothing else, where a line is shorter
    /// than 69 columns or a field does not read as its kind.
    pub fn parse(&self) -> (r: Result<MeanElements, PropagationError>)
        ensures
            r.is_ok() == tle_valid(line_bytes(self.line1@), line_bytes(self.line2@)),
            match r {
                Ok(e) => tle_elements(e, line_bytes(self.line1@), line_bytes(self.line2@)),
                Err(k) => k == PropagationError::InvalidElements,
            },
            r.is_ok() ==> in_unit_interval(r.unwrap().ecco),
    {
        let b1 = self.line1.as_str().as_bytes();
        let b2 = self.line2.as_str().as_bytes();
        let bad = Err(PropagationError::InvalidElements);
        if b1.len() < 69 || b2.len() < 69 {
            return bad;
        }
        let satnum = match read_integer(b1, 2, 7) { Some(v) => v, None => return bad };
        let classification = match read_classification(b1[7]) { Some(v) => v, None => return bad };
        let epochyr = match read_integer(b1, 18, 20) { Some(v) => v, None => return bad };
        let epochdays = match read_unsigned(b1, 20, 32) { Some(v) => v, None => return bad };
        let ndot = match read_decimal(b1, 33, 43) { Some(v) => v, None => return bad };
        let nddot = match read_exponent_form(b1, 44) { Some(v) => v, None => return bad };
        let bstar = match read_exponent_form(b1, 53) { Some(v) => v, None => return bad };
        let elnum = match read_integer(b1, 64, 68) { Some(v) => v, None => return bad };
        let inclo = match read_decimal(b2, 8, 16) { Some(v) => v, None => return bad };
        let nodeo = match read_decimal(b2, 17, 25) { Some(v) => v, None => return bad };
        let ecco = match read_assumed_point(b2, 26, 33) { Some(v) => v, None => return bad };
        let argpo = match read_decimal(b2, 34, 42) { Some(v) => v, None => return bad };
        let mo = match read_decimal(b2, 43, 51) { Some(v) => v, None => return bad };
        let no_kozai = match read_decimal(b2, 52, 63) { Some(v) => v, None => return bad };
        let revnum = match read_integer(b2, 63, 68) { Some(v) => v, None => return bad };
        let intldesg = trimmed_bytes(b1, 9, 17);
        proof {
            reveal_with_fuel(pow10, 13);
            assert(pow10(12) == 1_000_000_000_000nat);
        }
        let year: u64 = if epochyr < 57 {
            epochyr + 2000
        } else {
            epochyr + 1900
        };
        let scale = pow10_u64((-epochdays.exponent) as u64) as i64;
        proof {
            crate::fields::lemma_pow10_positive((-epochdays.exponent) as nat);
        }
        let whole = epochdays.mantissa / scale;
        assert(whole <= epochdays.mantissa) by (nonlinear_arith)
            requires
                scale >= 1,
                epochdays.mantissa >= 0,
                whole == epochdays.mantissa / scale,
        ;
        let frac = epochdays.mantissa % scale;
        let y = year as i64;
        let day_start = 367 * y - (7 * y) / 4 + 1721043 + whole;
        let jdsatepoch = Decimal { mantissa: day_start * 10 + 5, exponent: -1 };
        let jdsatepochf = Decimal { mantissa: frac, exponent: epochdays.exponent };
        Ok(
            MeanElements {
                satnum,
                classification,
                intldesg,
                epochyr,
                year,
                epochdays,
                ndot,
                nddot,
                bstar,
                elnum,
                inclo,
                nodeo,
                ecco,
                argpo,
                mo,
                no_kozai,
                revnum,
                jdsatepoch,
                jdsatepochf,
            },
        )
    }
}

/// A byte in the eccentricity columns that is neither a digit nor a space
/// makes the lines invalid, so reading them gives no elements.
pub proof fn lemma_eccentricity_non_digit_invalid(l1: Seq<u8>, l2: Seq<u8>, i: int)
    requires
        26 <= i < 33,
        i < l2.len(),
        !is_digit(l2[i]),
        l2[i] != 32,
    ensures
        !tle_valid(l1, l2),
{
    if l2.len() >= 69 {
        let s = l2.subrange(26, 33);
        assert(s[i - 26] == l2[i]);
        let j = lemma_trim_keeps(s, i - 26);
        assert(!all_digits(trim(s)));
    }
}

} // verus!
