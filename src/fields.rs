//! Fixed-column numeric fields: the grammar of each field kind as a spec
//! function over the field's bytes, and a reader proved against it.
use vstd::prelude::*;

verus! {

/// `10` to the power `n`.
pub open spec fn pow10(n: nat) -> nat
    decreases n,
{
    if n == 0 {
        1
    } else {
        10 * pow10((n - 1) as nat)
    }
}

pub open spec fn is_digit(c: u8) -> bool {
    48 <= c && c <= 57
}

pub open spec fn all_digits(s: Seq<u8>) -> bool {
    forall|i: int| 0 <= i < s.len() ==> is_digit(#[trigger] s[i])
}

/// The number that a run of decimal digits writes, most significant first.
pub open spec fn digits_value(s: Seq<u8>) -> nat
    decreases s.len(),
{
    if s.len() == 0 {
        0
    } else {
        digits_value(s.drop_last()) * 10 + (s.last() - 48) as nat
    }
}

pub proof fn lemma_pow10_positive(n: nat)
    ensures
        pow10(n) >= 1,
    decreases n,
{
    if n > 0 {
        lemma_pow10_positive((n - 1) as nat);
    }
}

pub proof fn lemma_pow10_add(a: nat, b: nat)
    ensures
        pow10(a + b) == pow10(a) * pow10(b),
    decreases a,
{
    if a > 0 {
        lemma_pow10_add((a - 1) as nat, b);
        assert(pow10(a + b) == 10 * pow10((a - 1 + b) as nat));
        assert(10 * (pow10((a - 1) as nat) * pow10(b)) == (10 * pow10((a - 1) as nat)) * pow10(b))
            by (nonlinear_arith);
        assert(pow10(a) == 10 * pow10((a - 1) as nat));
    } else {
        assert(pow10(a) == 1);
    }
}

pub proof fn lemma_pow10_mono(a: nat, b: nat)
    requires
        a <= b,
    ensures
        pow10(a) <= pow10(b),
{
    lemma_pow10_add(a, (b - a) as nat);
    lemma_pow10_positive((b - a) as nat);
    lemma_pow10_positive(a);
    assert(pow10(a) * pow10((b - a) as nat) >= pow10(a)) by (nonlinear_arith)
        requires
            pow10((b - a) as nat) >= 1,
    ;
}

pub proof fn lemma_pow10_18()
    ensures
        pow10(18) == 1_000_000_000_000_000_000nat,
{
    reveal_with_fuel(pow10, 19);
}

/// A run of `n` digits writes a number below `10^n`.
pub proof fn lemma_digits_bound(s: Seq<u8>)
    requires
        all_digits(s),
    ensures
        digits_value(s) < pow10(s.len()),
    decreases s.len(),
{
    if s.len() > 0 {
        let t = s.drop_last();
        assert(all_digits(t)) by {
            assert forall|i: int| 0 <= i < t.len() implies is_digit(#[trigger] t[i]) by {
                assert(t[i] == s[i]);
            }
        }
        lemma_digits_bound(t);
        assert(is_digit(s[s.len() - 1]));
    }
}

/// Reads `b[lo..hi]` as an unsigned run of digits.
pub fn read_digits(b: &[u8], lo: usize, hi: usize) -> (r: Option<u64>)
    requires
        lo <= hi <= b@.len(),
        hi - lo <= 18,
    ensures
        r.is_some() == all_digits(b@.subrange(lo as int, hi as int)),
        r.is_some() ==> r.unwrap() as nat == digits_value(b@.subrange(lo as int, hi as int)),
{
    let mut v: u64 = 0;
    let mut i: usize = lo;
    while i < hi
        invariant
            lo <= i <= hi <= b@.len(),
            hi - lo <= 18,
            all_digits(b@.subrange(lo as int, i as int)),
            v as nat == digits_value(b@.subrange(lo as int, i as int)),
        decreases hi - i,
    {
        let c = b[i];
        if c < 48 || c > 57 {
            assert(!all_digits(b@.subrange(lo as int, hi as int))) by {
                assert(b@.subrange(lo as int, hi as int)[i - lo] == c);
            }
            return None;
        }
        let ghost prev = b@.subrange(lo as int, i as int);
        let ghost next = b@.subrange(lo as int, i + 1);
        proof {
            assert(next.drop_last() =~= prev);
            lemma_digits_bound(prev);
            lemma_pow10_mono(prev.len(), 17);
            lemma_pow10_18();
            assert(pow10(18) == 10 * pow10(17));
        }
        v = v * 10 + (c - 48) as u64;
        i = i + 1;
        proof {
            assert forall|k: int| 0 <= k < next.len() implies is_digit(#[trigger] next[k]) by {
                if k < prev.len() {
                    assert(next[k] == prev[k]);
                }
            }
        }
    }
    Some(v)
}

/// Leading spaces removed.
pub open spec fn trim_start(s: Seq<u8>) -> Seq<u8>
    decreases s.len(),
{
    if s.len() > 0 && s[0] == 32 {
        trim_start(s.drop_first())
    } else {
        s
    }
}

/// Trailing spaces removed.
pub open spec fn trim_end(s: Seq<u8>) -> Seq<u8>
    decreases s.len(),
{
    if s.len() > 0 && s.last() == 32 {
        trim_end(s.drop_last())
    } else {
        s
    }
}

/// Spaces removed on both sides.
pub open spec fn trim(s: Seq<u8>) -> Seq<u8> {
    trim_end(trim_start(s))
}

/// Bounds of `b[lo..hi]` with its spaces on both sides removed.
pub fn trim_bounds(b: &[u8], lo: usize, hi: usize) -> (r: (usize, usize))
    requires
        lo <= hi <= b@.len(),
    ensures
        lo <= r.0 <= r.1 <= hi,
        b@.subrange(r.0 as int, r.1 as int) == trim(b@.subrange(lo as int, hi as int)),
{
    let mut i: usize = lo;
    while i < hi && b[i] == 32
        invariant
            lo <= i <= hi <= b@.len(),
            trim_start(b@.subrange(lo as int, hi as int)) == trim_start(
                b@.subrange(i as int, hi as int),
            ),
        decreases hi - i,
    {
        assert(b@.subrange(i as int, hi as int).drop_first() =~= b@.subrange(i + 1, hi as int));
        i = i + 1;
    }
    assert(trim_start(b@.subrange(i as int, hi as int)) == b@.subrange(i as int, hi as int));
    let mut j: usize = hi;
    while j > i && b[j - 1] == 32
        invariant
            lo <= i <= j <= hi <= b@.len(),
            trim(b@.subrange(lo as int, hi as int)) == trim_end(b@.subrange(i as int, j as int)),
        decreases j - i,
    {
        assert(b@.subrange(i as int, j as int).drop_last() =~= b@.subrange(i as int, j - 1));
        j = j - 1;
    }
    (i, j)
}

/// Position of the first `.` in `s`, or its length where it holds none.
pub open spec fn point_index(s: Seq<u8>) -> nat
    decreases s.len(),
{
    if s.len() == 0 {
        0
    } else if s[0] == 46 {
        0
    } else {
        1 + point_index(s.drop_first())
    }
}

/// The digits after the first `.` of `s`; empty where it holds none.
pub open spec fn fraction_part(s: Seq<u8>) -> Seq<u8> {
    let p = point_index(s) as int;
    if p < s.len() {
        s.subrange(p + 1, s.len() as int)
    } else {
        Seq::empty()
    }
}

/// An unsigned decimal `ddd.ddd` (either side may be empty, not both) as
/// `(mantissa, exponent)`, the number being `mantissa * 10^exponent`.
pub open spec fn unsigned_decimal(s: Seq<u8>) -> Option<(int, int)> {
    let ip = s.subrange(0, point_index(s) as int);
    let fp = fraction_part(s);
    if all_digits(ip) && all_digits(fp) && ip.len() + fp.len() > 0 {
        Some(((digits_value(ip) * pow10(fp.len()) + digits_value(fp)) as int, -(fp.len() as int)))
    } else {
        None
    }
}

/// A decimal field: spaces around it, an optional `+` or `-`, then an
/// unsigned decimal.
pub open spec fn decimal_field(s: Seq<u8>) -> Option<(int, int)> {
    let t = trim(s);
    if t.len() > 0 && t[0] == 45 {
        match unsigned_decimal(t.drop_first()) {
            Some(d) => Some((-d.0, d.1)),
            None => None,
        }
    } else if t.len() > 0 && t[0] == 43 {
        unsigned_decimal(t.drop_first())
    } else {
        unsigned_decimal(t)
    }
}

/// An exact decimal number: `mantissa * 10^exponent`.
#[derive(Clone, Copy, Debug, PartialEq, Eq, Structural)]
pub struct Decimal {
    pub mantissa: i64,
    pub exponent: i64,
}

impl Decimal {
    pub open spec fn view(&self) -> (int, int) {
        (self.mantissa as int, self.exponent as int)
    }
}

/// `10^n` for `n <= 18`.
pub fn pow10_u64(n: u64) -> (r: u64)
    requires
        n <= 18,
    ensures
        r as nat == pow10(n as nat),
{
    let mut r: u64 = 1;
    let mut i: u64 = 0;
    while i < n
        invariant
            i <= n <= 18,
            r as nat == pow10(i as nat),
        decreases n - i,
    {
        proof {
            lemma_pow10_mono((i + 1) as nat, 18);
            lemma_pow10_18();
        }
        r = r * 10;
        i = i + 1;
    }
    r
}

proof fn lemma_mantissa_bound(iv: nat, il: nat, fv: nat, fl: nat)
    requires
        iv < pow10(il),
        fv < pow10(fl),
    ensures
        iv * pow10(fl) + fv < pow10(il + fl),
{
    lemma_pow10_add(il, fl);
    assert(iv * pow10(fl) + fv < pow10(il) * pow10(fl)) by (nonlinear_arith)
        requires
            iv < pow10(il),
            fv < pow10(fl),
    ;
}

/// Finds the first `.` in `b[lo..hi]`, or `hi`.
fn find_point(b: &[u8], lo: usize, hi: usize) -> (p: usize)
    requires
        lo <= hi <= b@.len(),
    ensures
        lo <= p <= hi,
        p - lo == point_index(b@.subrange(lo as int, hi as int)),
{
    let mut i: usize = lo;
    while i < hi && b[i] != 46
        invariant
            lo <= i <= hi <= b@.len(),
            point_index(b@.subrange(lo as int, hi as int)) == (i - lo) + point_index(
                b@.subrange(i as int, hi as int),
            ),
        decreases hi - i,
    {
        assert(b@.subrange(i as int, hi as int).drop_first() =~= b@.subrange(i + 1, hi as int));
        i = i + 1;
    }
    i
}

/// Reads `b[lo..hi]` as an unsigned decimal.
fn read_unsigned_decimal(b: &[u8], lo: usize, hi: usize) -> (r: Option<Decimal>)
    requires
        lo <= hi <= b@.len(),
        hi - lo <= 18,
    ensures
        match r {
            Some(d) => unsigned_decimal(b@.subrange(lo as int, hi as int)) == Some(d@),
            None => unsigned_decimal(b@.subrange(lo as int, hi as int)).is_none(),
        },
        r.is_some() ==> 0 <= r.unwrap().mantissa < pow10((hi - lo) as nat),
        r.is_some() ==> hi - lo >= -r.unwrap().exponent >= 0,
{
    let ghost s = b@.subrange(lo as int, hi as int);
    let p = find_point(b, lo, hi);
    let f_lo: usize = if p < hi {
        p + 1
    } else {
        hi
    };
    assert(s.subrange(0, point_index(s) as int) =~= b@.subrange(lo as int, p as int));
    assert(fraction_part(s) =~= b@.subrange(f_lo as int, hi as int));
    let iv = read_digits(b, lo, p);
    let fv = read_digits(b, f_lo, hi);
    match (iv, fv) {
        (Some(iv), Some(fv)) => {
            if p - lo + (hi - f_lo) == 0 {
                return None;
            }
            let fl = (hi - f_lo) as u64;
            proof {
                lemma_digits_bound(b@.subrange(lo as int, p as int));
                lemma_digits_bound(b@.subrange(f_lo as int, hi as int));
                lemma_mantissa_bound(iv as nat, (p - lo) as nat, fv as nat, fl as nat);
                lemma_pow10_mono((p - lo + fl) as nat, 18);
                lemma_pow10_mono((p - lo + fl) as nat, (hi - lo) as nat);
                lemma_pow10_18();
                lemma_pow10_positive(fl as nat);
                assert(iv * pow10(fl as nat) <= iv * pow10(fl as nat) + fv);
            }
            let scale = pow10_u64(fl);
            let m = iv * scale + fv;
            Some(Decimal { mantissa: m as i64, exponent: -(fl as i64) })
        },
        _ => None,
    }
}

/// An unsigned decimal with spaces around it.
pub open spec fn unsigned_field(s: Seq<u8>) -> Option<(int, int)> {
    unsigned_decimal(trim(s))
}

/// Reads `b[lo..hi]` as an unsigned decimal with spaces around it.
pub fn read_unsigned(b: &[u8], lo: usize, hi: usize) -> (r: Option<Decimal>)
    requires
        lo <= hi <= b@.len(),
        hi - lo <= 18,
    ensures
        match r {
            Some(d) => unsigned_field(b@.subrange(lo as int, hi as int)) == Some(d@),
            None => unsigned_field(b@.subrange(lo as int, hi as int)).is_none(),
        },
        r.is_some() ==> 0 <= r.unwrap().mantissa < pow10((hi - lo) as nat),
        r.is_some() ==> hi - lo >= -r.unwrap().exponent >= 0,
{
    let (s, e) = trim_bounds(b, lo, hi);
    let r = read_unsigned_decimal(b, s, e);
    if r.is_some() {
        proof {
            lemma_pow10_mono((e - s) as nat, (hi - lo) as nat);
        }
    }
    r
}

/// Reads `b[lo..hi]` as a decimal field.
pub fn read_decimal(b: &[u8], lo: usize, hi: usize) -> (r: Option<Decimal>)
    requires
        lo <= hi <= b@.len(),
        hi - lo <= 18,
    ensures
        match r {
            Some(d) => decimal_field(b@.subrange(lo as int, hi as int)) == Some(d@),
            None => decimal_field(b@.subrange(lo as int, hi as int)).is_none(),
        },
{
    let (s, e) = trim_bounds(b, lo, hi);
    let ghost t = b@.subrange(s as int, e as int);
    if s < e && (b[s] == 45 || b[s] == 43) {
        assert(t.drop_first() =~= b@.subrange(s + 1, e as int));
        let u = read_unsigned_decimal(b, s + 1, e);
        if b[s] == 45 {
            match u {
                Some(d) => Some(Decimal { mantissa: -d.mantissa, exponent: d.exponent }),
                None => None,
            }
        } else {
            u
        }
    } else {
        read_unsigned_decimal(b, s, e)
    }
}

/// An unsigned integer field: spaces around a non-empty run of digits.
pub open spec fn integer_field(s: Seq<u8>) -> Option<nat> {
    let t = trim(s);
    if t.len() > 0 && all_digits(t) {
        Some(digits_value(t))
    } else {
        None
    }
}

/// Reads `b[lo..hi]` as an unsigned integer field.
pub fn read_integer(b: &[u8], lo: usize, hi: usize) -> (r: Option<u64>)
    requires
        lo <= hi <= b@.len(),
        hi - lo <= 18,
    ensures
        match r {
            Some(v) => integer_field(b@.subrange(lo as int, hi as int)) == Some(v as nat),
            None => integer_field(b@.subrange(lo as int, hi as int)).is_none(),
        },
        r.is_some() ==> r.unwrap() < pow10((hi - lo) as nat),
{
    let (s, e) = trim_bounds(b, lo, hi);
    if s == e {
        return None;
    }
    let r = read_digits(b, s, e);
    if r.is_some() {
        proof {
            lemma_digits_bound(b@.subrange(s as int, e as int));
            lemma_pow10_mono((e - s) as nat, (hi - lo) as nat);
        }
    }
    r
}

/// A field with an assumed leading decimal point: spaces around a run of
/// digits `ddd`, the number being `0.ddd` (zero where the run is empty).
pub open spec fn assumed_point_field(s: Seq<u8>) -> Option<(int, int)> {
    let t = trim(s);
    if all_digits(t) {
        Some((digits_value(t) as int, -(t.len() as int)))
    } else {
        None
    }
}

/// `0 <= d < 1`.
pub open spec fn in_unit_interval(d: Decimal) -> bool {
    d.exponent <= 0 && 0 <= d.mantissa < pow10((-d.exponent) as nat)
}

/// A field with an assumed leading decimal point reads as a number in `[0, 1)`.
pub proof fn lemma_assumed_point_in_unit(s: Seq<u8>)
    requires
        assumed_point_field(s).is_some(),
    ensures
        assumed_point_field(s).unwrap().0 < pow10((-assumed_point_field(s).unwrap().1) as nat),
        assumed_point_field(s).unwrap().0 >= 0,
{
    lemma_digits_bound(trim(s));
}

/// Reads `b[lo..hi]` as a field with an assumed leading decimal point.
pub fn read_assumed_point(b: &[u8], lo: usize, hi: usize) -> (r: Option<Decimal>)
    requires
        lo <= hi <= b@.len(),
        hi - lo <= 18,
    ensures
        match r {
            Some(d) => assumed_point_field(b@.subrange(lo as int, hi as int)) == Some(d@),
            None => assumed_point_field(b@.subrange(lo as int, hi as int)).is_none(),
        },
        r.is_some() ==> in_unit_interval(r.unwrap()),
{
    let (s, e) = trim_bounds(b, lo, hi);
    match read_digits(b, s, e) {
        Some(v) => {
            proof {
                lemma_digits_bound(b@.subrange(s as int, e as int));
                lemma_pow10_mono((e - s) as nat, 18);
                lemma_pow10_18();
            }
            proof {
                lemma_assumed_point_in_unit(b@.subrange(lo as int, hi as int));
            }
            Some(Decimal { mantissa: v as i64, exponent: -((e - s) as i64) })
        },
        None => None,
    }
}

/// `+1` or `-1` for a sign column that holds a space, `+` or `-`.
pub open spec fn sign_of(c: u8) -> Option<int> {
    if c == 32 || c == 43 {
        Some(1)
    } else if c == 45 {
        Some(-1)
    } else {
        None
    }
}

/// The exponential form of eight columns `smmmmmse`: a sign, five digits
/// read as `0.mmmmm`, and an exponent of a sign and one digit. The number
/// is `s0.mmmmm * 10^(se)`.
pub open spec fn exponent_field(s: Seq<u8>) -> Option<(int, int)> {
    let m = s.subrange(1, 6);
    if s.len() == 8 && sign_of(s[0]).is_some() && all_digits(m) && sign_of(s[6]).is_some()
        && is_digit(s[7]) {
        Some(
            (
                sign_of(s[0]).unwrap() * digits_value(m),
                sign_of(s[6]).unwrap() * (s[7] - 48) - 5,
            ),
        )
    } else {
        None
    }
}

fn read_sign(c: u8) -> (r: Option<i64>)
    ensures
        match r {
            Some(v) => sign_of(c) == Some(v as int),
            None => sign_of(c).is_none(),
        },
{
    if c == 32 || c == 43 {
        Some(1)
    } else if c == 45 {
        Some(-1)
    } else {
        None
    }
}

/// Reads the eight columns `b[lo..lo + 8]` in exponential form.
pub fn read_exponent_form(b: &[u8], lo: usize) -> (r: Option<Decimal>)
    requires
        lo + 8 <= b@.len(),
    ensures
        match r {
            Some(d) => exponent_field(b@.subrange(lo as int, lo + 8)) == Some(d@),
            None => exponent_field(b@.subrange(lo as int, lo + 8)).is_none(),
        },
{
    let ghost s = b@.subrange(lo as int, lo + 8);
    assert(s.subrange(1, 6) =~= b@.subrange(lo + 1, lo + 6));
    let ms = read_sign(b[lo]);
    let m = read_digits(b, lo + 1, lo + 6);
    let es = read_sign(b[lo + 6]);
    let e = b[lo + 7];
    match (ms, m, es) {
        (Some(ms), Some(m), Some(es)) => {
            if e < 48 || e > 57 {
                return None;
            }
            proof {
                lemma_digits_bound(b@.subrange(lo + 1, lo + 6));
                reveal_with_fuel(pow10, 6);
                assert(pow10(5) == 100000);
                assert(m < 100000);
                assert(ms == 1 || ms == -1);
                assert(es == 1 || es == -1);
            }
            Some(Decimal { mantissa: ms * (m as i64), exponent: es * ((e - 48) as i64) - 5 })
        },
        _ => None,
    }
}

proof fn lemma_trim_start_keeps(s: Seq<u8>, i: int) -> (j: int)
    requires
        0 <= i < s.len(),
        s[i] != 32,
    ensures
        0 <= j < trim_start(s).len(),
        trim_start(s)[j] == s[i],
        trim_start(s).len() - j == s.len() - i,
    decreases s.len(),
{
    if s.len() > 0 && s[0] == 32 {
        assert(s.drop_first()[i - 1] == s[i]);
        lemma_trim_start_keeps(s.drop_first(), i - 1)
    } else {
        i
    }
}

proof fn lemma_trim_end_keeps(s: Seq<u8>, i: int) -> (j: int)
    requires
        0 <= i < s.len(),
        s[i] != 32,
    ensures
        0 <= j < trim_end(s).len(),
        trim_end(s)[j] == s[i],
        j == i,
    decreases s.len(),
{
    if s.len() > 0 && s.last() == 32 {
        assert(s.drop_last()[i] == s[i]);
        lemma_trim_end_keeps(s.drop_last(), i)
    } else {
        i
    }
}

/// A byte other than a space survives trimming.
pub proof fn lemma_trim_keeps(s: Seq<u8>, i: int) -> (j: int)
    requires
        0 <= i < s.len(),
        s[i] != 32,
    ensures
        0 <= j < trim(s).len(),
        trim(s)[j] == s[i],
{
    let k = lemma_trim_start_keeps(s, i);
    lemma_trim_end_keeps(trim_start(s), k)
}

} // verus!
