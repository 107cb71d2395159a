use vstd::prelude::*;
use crate::text::string_from_range;

verus! {

/// Units per whole number: a number keeps six decimal places.
pub const SCALE: i64 = 1_000_000;

/// A decimal number with six places after the point, held as a count of
/// millionths. Arithmetic on it is exact where the result has six places,
/// truncates toward zero otherwise (in `*` and `/`), and fails rather than
/// wrap where the result is out of range.
#[derive(Clone, Copy, Debug, PartialEq, Eq, Structural)]
pub struct Number {
    pub units: i64,
}

pub open spec fn abs(x: int) -> int {
    if x < 0 {
        -x
    } else {
        x
    }
}

/// Division that truncates toward zero.
pub open spec fn trunc_div(x: int, y: int) -> int {
    let q = abs(x) / abs(y);
    if (x < 0) != (y < 0) {
        -q
    } else {
        q
    }
}

pub open spec fn in_range(x: int) -> bool {
    i64::MIN <= x <= i64::MAX
}

pub open spec fn sum_units(a: int, b: int) -> int {
    a + b
}

pub open spec fn difference_units(a: int, b: int) -> int {
    a - b
}

pub open spec fn product_units(a: int, b: int) -> int {
    trunc_div(a * b, SCALE as int)
}

pub open spec fn quotient_units(a: int, b: int) -> int {
    trunc_div(a * SCALE, b)
}

/// The value of a run of ASCII digits.
pub open spec fn digits_value(t: Seq<char>) -> nat
    decreases t.len(),
{
    if t.len() == 0 {
        0
    } else {
        digits_value(t.drop_last()) * 10 + (t.last() as nat - '0' as nat) as nat
    }
}

pub open spec fn pow10(n: nat) -> nat
    decreases n,
{
    if n == 0 {
        1
    } else {
        10 * pow10((n - 1) as nat)
    }
}

/// `v`, read in `places` decimal places, as millionths.
pub open spec fn padded_units(v: nat, places: nat) -> nat
    decreases 6 - places,
{
    if places >= 6 {
        v
    } else {
        padded_units(v * 10, places + 1)
    }
}

/// The millionths that a run of fraction digits stands for; digits past the
/// sixth are dropped.
pub open spec fn fraction_units(f: Seq<char>) -> nat {
    let p: nat = if f.len() >= 6 {
        6
    } else {
        f.len()
    };
    padded_units(digits_value(f.subrange(0, p as int)), p)
}

/// The index of the first `.` in `t`, or its length.
pub open spec fn dot_index(t: Seq<char>, k: int) -> int
    decreases t.len() - k,
{
    if 0 <= k < t.len() && t[k] != '.' {
        dot_index(t, k + 1)
    } else {
        k
    }
}

/// How many digits a numeric literal has after its `.`.
pub open spec fn literal_places(t: Seq<char>) -> int {
    let d = dot_index(t, 0);
    if d < t.len() {
        t.len() - d - 1
    } else {
        0
    }
}

/// The millionths that a numeric literal stands for.
pub open spec fn literal_units(t: Seq<char>) -> nat {
    let d = dot_index(t, 0);
    if d < t.len() {
        digits_value(t.subrange(0, d)) * (SCALE as nat) + fraction_units(t.subrange(d + 1, t.len() as int))
    } else {
        digits_value(t) * (SCALE as nat)
    }
}

/// A numeric literal: ASCII digits with at most one `.` between digits.
pub open spec fn literal_shape(t: Seq<char>) -> bool {
    &&& forall|k: int| 0 <= k < t.len() ==> (t[k] == '.' || ('0' <= #[trigger] t[k] && t[k] <= '9'))
    &&& forall|k: int, m: int| #![trigger t[k], t[m]] 0 <= k < m < t.len() && t[k] == '.' ==> t[m] != '.'
}

pub open spec fn digit_char(d: nat) -> char {
    ((d + 48) as u8) as char
}

/// The decimal digits of `n`.
pub open spec fn nat_text(n: nat) -> Seq<char>
    decreases n,
{
    if n < 10 {
        seq![digit_char(n)]
    } else {
        nat_text(n / 10).push(digit_char(n % 10))
    }
}

/// The lowest `w` decimal digits of `n`, leading zeros kept.
pub open spec fn padded_text(n: nat, w: nat) -> Seq<char>
    decreases w,
{
    if w == 0 {
        Seq::empty()
    } else {
        padded_text(n / 10, (w - 1) as nat).push(digit_char(n % 10))
    }
}

/// The fraction digits of `n` millionths in `w` places, trailing zeros
/// dropped.
pub open spec fn fraction_text(n: nat, w: nat) -> Seq<char>
    decreases w,
{
    if w > 0 && n % 10 == 0 {
        fraction_text(n / 10, (w - 1) as nat)
    } else {
        padded_text(n, w)
    }
}

/// How a number is written: an optional `-`, the whole part, and where the
/// fraction is not zero a `.` and its digits without trailing zeros.
pub open spec fn number_text(u: int) -> Seq<char> {
    let m = abs(u) as nat;
    let whole = nat_text(m / (SCALE as nat));
    let frac = m % (SCALE as nat);
    let sign: Seq<char> = if u < 0 {
        seq!['-']
    } else {
        Seq::empty()
    };
    if frac == 0 {
        sign + whole
    } else {
        sign + whole + seq!['.'] + fraction_text(frac, 6)
    }
}

impl Number {
    pub fn is_zero(&self) -> (r: bool)
        ensures
            r == (self.units == 0),
    {
        self.units == 0
    }

    /// The sum; `None` where it is out of range.
    pub fn plus(&self, o: &Number) -> (r: Option<Number>)
        ensures
            match r {
                Some(x) => x.units == sum_units(self.units as int, o.units as int),
                None => !in_range(sum_units(self.units as int, o.units as int)),
            },
    {
        let u: i128 = self.units as i128 + o.units as i128;
        if u < i64::MIN as i128 || u > i64::MAX as i128 {
            None
        } else {
            Some(Number { units: u as i64 })
        }
    }

    /// The difference; `None` where it is out of range.
    pub fn minus(&self, o: &Number) -> (r: Option<Number>)
        ensures
            match r {
                Some(x) => x.units == difference_units(self.units as int, o.units as int),
                None => !in_range(difference_units(self.units as int, o.units as int)),
            },
    {
        let u: i128 = self.units as i128 - o.units as i128;
        if u < i64::MIN as i128 || u > i64::MAX as i128 {
            None
        } else {
            Some(Number { units: u as i64 })
        }
    }

    /// The product, truncated toward zero to six places; `None` where it is
    /// out of range.
    pub fn times(&self, o: &Number) -> (r: Option<Number>)
        ensures
            match r {
                Some(x) => x.units == product_units(self.units as int, o.units as int),
                None => !in_range(product_units(self.units as int, o.units as int)),
            },
    {
        let a: u128 = magnitude(self.units);
        let b: u128 = magnitude(o.units);
        assert(a * b <= 0x8000_0000_0000_0000u128 * 0x8000_0000_0000_0000u128) by (nonlinear_arith)
            requires
                a <= 0x8000_0000_0000_0000u128,
                b <= 0x8000_0000_0000_0000u128,
        ;
        let q: u128 = (a * b) / 1_000_000;
        assert(abs(self.units as int * o.units as int) == a * b) by (nonlinear_arith)
            requires
                a == abs(self.units as int),
                b == abs(o.units as int),
        ;
        assert((self.units as int * o.units as int) < 0 <==> ((self.units < 0) != (o.units < 0)
            && self.units != 0 && o.units != 0)) by (nonlinear_arith);
        assert(q != 0 ==> a * b != 0);
        assert(a * b != 0 ==> a != 0 && b != 0) by (nonlinear_arith);
        let negative = (self.units < 0) != (o.units < 0) && q != 0;
        signed(q, negative)
    }

    /// The quotient, truncated toward zero to six places; `None` where it is
    /// out of range.
    pub fn divided_by(&self, o: &Number) -> (r: Option<Number>)
        requires
            o.units != 0,
        ensures
            match r {
                Some(x) => x.units == quotient_units(self.units as int, o.units as int),
                None => !in_range(quotient_units(self.units as int, o.units as int)),
            },
    {
        let a: u128 = magnitude(self.units);
        let b: u128 = magnitude(o.units);
        let n: u128 = a * 1_000_000;
        let q: u128 = n / b;
        assert(q <= n) by (nonlinear_arith)
            requires
                b >= 1,
                q == n / b,
        ;
        assert(abs(self.units as int * SCALE) == n) by (nonlinear_arith)
            requires
                a == abs(self.units as int),
                n == a * 1_000_000,
        ;
        assert((self.units as int * SCALE < 0) == (self.units < 0)) by (nonlinear_arith);
        let negative = (self.units < 0) != (o.units < 0) && q != 0;
        signed(q, negative)
    }

    pub fn less_than(&self, o: &Number) -> (r: bool)
        ensures
            r == (self.units < o.units),
    {
        self.units < o.units
    }

    /// The number as text: an optional `-`, the whole part, and where the
    /// fraction is not zero a `.` and its digits without trailing zeros.
    pub fn to_text(&self) -> (r: String)
        ensures
            r@ == number_text(self.units as int),
    {
        let mut out: Vec<char> = Vec::new();
        if self.units < 0 {
            out.push('-');
        }
        let m = magnitude(self.units);
        assert(m / 1_000_000 <= m);
        push_nat((m / 1_000_000) as u64, &mut out);
        let frac = (m % 1_000_000) as u64;
        if frac != 0 {
            out.push('.');
            push_fraction(frac, 6, &mut out);
        }
        assert(out@ =~= number_text(self.units as int));
        string_from_range(&out, 0, out.len())
    }
    /// Reads a numeric literal; `None` where its value is out of range or it
    /// has more than six places after the point, which a number cannot hold.
    pub fn from_literal(t: &str) -> (r: Option<Number>)
        requires
            literal_shape(t@),
        ensures
            match r {
                Some(x) => literal_places(t@) <= 6 && x.units as int == literal_units(t@),
                None => literal_places(t@) > 6 || !in_range(literal_units(t@) as int),
            },
    {
        let n = t.unicode_len();
        let ghost s = t@;
        let mut whole: u64 = 0;
        let mut big = false;
        let mut k: usize = 0;
        // the whole part
        while k < n && t.get_char(k) != '.'
            invariant
                n == s.len(),
                k <= n,
                t@ == s,
                literal_shape(s),
                dot_index(s, k as int) == dot_index(s, 0),
                big ==> digits_value(s.subrange(0, k as int)) > 9_223_372_036_854u64,
                !big ==> whole as nat == digits_value(s.subrange(0, k as int)),
                !big ==> whole <= 9_223_372_036_854u64,
            decreases n - k,
        {
            let c = t.get_char(k);
            let d = (c as u32 - '0' as u32) as u64;
            assert(s.subrange(0, k + 1).drop_last() =~= s.subrange(0, k as int));
            if !big {
                let w = whole * 10 + d;
                if w > 9_223_372_036_854u64 {
                    big = true;
                } else {
                    whole = w;
                }
            }
            k = k + 1;
        }
        let ghost d_at = k as int;
        assert(dot_index(s, 0) == d_at);
        if big {
            proof {
                lemma_literal_at_least_whole(s, k as int);
            }
            return None;
        }
        // the fraction, up to six digits
        let mut frac: u64 = 0;
        let mut places: u64 = 0;
        if k < n {
            k = k + 1;
            let ghost f = s.subrange(d_at + 1, n as int);
            while k < n && places < 6
                invariant
                    n == s.len(),
                    0 <= d_at < k <= n,
                    d_at < n,
                    t@ == s,
                    f == s.subrange(d_at + 1, n as int),
                    literal_shape(s),
                    s[d_at] == '.',
                    places == k - d_at - 1,
                    places <= 6,
                    frac as nat == digits_value(f.subrange(0, places as int)),
                    frac < pow10(places as nat),
                decreases n - k,
            {
                let c = t.get_char(k);
                assert(s[d_at] == '.');
                assert(s[k as int] == c);
                assert(d_at < k < n);
                assert(f.len() == n - d_at - 1);
                assert(c != '.');
                assert(places + 1 <= f.len());
                let d = (c as u32 - '0' as u32) as u64;
                assert(f.subrange(0, places + 1).drop_last() =~= f.subrange(0, places as int));
                assert(f.subrange(0, places + 1).last() == c);
                proof {
                    lemma_pow10_bound(places as nat);
                }
                frac = frac * 10 + d;
                places = places + 1;
                k = k + 1;
            }
            if k < n {
                return None;
            }
            assert(fraction_units(f) == padded_units(frac as nat, places as nat));
            while places < 6
                invariant
                    places <= 6,
                    frac < pow10(places as nat),
                    padded_units(frac as nat, places as nat) == fraction_units(f),
                decreases 6 - places,
            {
                proof {
                    lemma_pow10_bound(places as nat);
                }
                frac = frac * 10;
                places = places + 1;
            }
            proof {
                lemma_pow10_bound(6);
            }
            assert(literal_units(s) == whole as nat * (SCALE as nat) + frac as nat);
        } else {
            assert(s.subrange(0, n as int) =~= s);
        }
        assert(whole as int * 1_000_000 <= 9_223_372_036_854 * 1_000_000) by (nonlinear_arith)
            requires
                whole <= 9_223_372_036_854u64,
        ;
        let u: i128 = (whole as i128) * (SCALE as i128) + frac as i128;
        if u > i64::MAX as i128 {
            None
        } else {
            Some(Number { units: u as i64 })
        }
    }
}

/// The absolute value of `x`.
fn magnitude(x: i64) -> (r: u128)
    ensures
        r == abs(x as int),
        r <= 0x8000_0000_0000_0000u128,
{
    if x < 0 {
        (-(x as i128)) as u128
    } else {
        x as u128
    }
}

/// `q` or `-q` as a number; `None` where that is out of range.
fn signed(q: u128, negative: bool) -> (r: Option<Number>)
    ensures
        match r {
            Some(x) => x.units == if negative { -(q as int) } else { q as int },
            None => !in_range(if negative { -(q as int) } else { q as int }),
        },
{
    if negative {
        if q > 0x8000_0000_0000_0000u128 {
            None
        } else {
            Some(Number { units: (-(q as i128)) as i64 })
        }
    } else {
        if q > 0x7fff_ffff_ffff_ffffu128 {
            None
        } else {
            Some(Number { units: q as i64 })
        }
    }
}

fn digit(d: u64) -> (r: char)
    requires
        d < 10,
    ensures
        r == digit_char(d as nat),
{
    ((d as u8) + 48u8) as char
}

fn push_nat(n: u64, out: &mut Vec<char>)
    ensures
        final(out)@ == old(out)@ + nat_text(n as nat),
    decreases n,
{
    if n >= 10 {
        push_nat(n / 10, out);
    }
    out.push(digit(n % 10));
    assert(final(out)@ =~= old(out)@ + nat_text(n as nat));
}

fn push_padded(n: u64, w: u64, out: &mut Vec<char>)
    ensures
        final(out)@ == old(out)@ + padded_text(n as nat, w as nat),
    decreases w,
{
    if w > 0 {
        push_padded(n / 10, w - 1, out);
        out.push(digit(n % 10));
    }
    assert(final(out)@ =~= old(out)@ + padded_text(n as nat, w as nat));
}

fn push_fraction(n: u64, w: u64, out: &mut Vec<char>)
    ensures
        final(out)@ == old(out)@ + fraction_text(n as nat, w as nat),
    decreases w,
{
    if w > 0 && n % 10 == 0 {
        push_fraction(n / 10, w - 1, out);
    } else {
        push_padded(n, w, out);
    }
}

proof fn lemma_pow10_bound(p: nat)
    requires
        p <= 6,
    ensures
        pow10(p) <= 1_000_000,
        pow10(p + 1) == 10 * pow10(p),
        p == 6 ==> pow10(p) == 1_000_000,
{
    assert(pow10(0) == 1);
    assert(pow10(1) == 10);
    assert(pow10(2) == 100);
    assert(pow10(3) == 1000);
    assert(pow10(4) == 10000);
    assert(pow10(5) == 100000);
    assert(pow10(6) == 1000000);
    assert(pow10(7) == 10000000);
}

proof fn lemma_digits_value_grows(t: Seq<char>, k: int)
    requires
        0 <= k <= t.len(),
        forall|m: int| 0 <= m < t.len() ==> '0' <= #[trigger] t[m] && t[m] <= '9',
    ensures
        digits_value(t.subrange(0, k)) <= digits_value(t),
    decreases t.len() - k,
{
    if k < t.len() {
        assert(t.subrange(0, k + 1).drop_last() =~= t.subrange(0, k));
        lemma_digits_value_grows(t, k + 1);
    } else {
        assert(t.subrange(0, k) =~= t);
    }
}

/// A literal whose whole part exceeds the largest whole number that fits
/// is out of range.
proof fn lemma_literal_at_least_whole(s: Seq<char>, k: int)
    requires
        literal_shape(s),
        0 <= k <= dot_index(s, 0) <= s.len(),
        digits_value(s.subrange(0, k)) > 9_223_372_036_854,
    ensures
        !in_range(literal_units(s) as int),
{
    let d = dot_index(s, 0);
    lemma_dot_index(s, 0);
    let w = s.subrange(0, d);
    assert(w.subrange(0, k) =~= s.subrange(0, k));
    lemma_digits_value_grows(w, k);
    let v = digits_value(w);
    assert(v * 1_000_000 > 9_223_372_036_854_775_807) by (nonlinear_arith)
        requires
            v > 9_223_372_036_854,
    ;
    if d == s.len() {
        assert(w =~= s);
    }
    assert(literal_units(s) >= v * (SCALE as nat));
}

proof fn lemma_dot_index(s: Seq<char>, k: int)
    requires
        0 <= k <= s.len(),
    ensures
        k <= dot_index(s, k) <= s.len(),
        forall|m: int| k <= m < dot_index(s, k) ==> #[trigger] s[m] != '.',
        dot_index(s, k) < s.len() ==> s[dot_index(s, k)] == '.',
    decreases s.len() - k,
{
    if k < s.len() && s[k] != '.' {
        lemma_dot_index(s, k + 1);
    }
}

} // verus!
