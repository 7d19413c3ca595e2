//! Fixed-point scalar arithmetic.
//!
//! A [`Fixed`] is an `i32` with 10 fractional bits: one meter is 1024, and the
//! smallest representable step is 1/1024 m (~0.98 mm). Range is roughly
//! ±2,097,152 m. This is like a distance version of managing money in terms of
//! cents rather than fractional dollars.
//!
//! Integer rather than floating point because the simulation must replay
//! bit-identically after a crash, and float results vary across CPUs and
//! compilers.

use core::ops::{Add, Div, Mul, Neg, Sub};
use vstd::prelude::*;
use vstd::std_specs::ops::{AddSpecImpl, DivSpecImpl, MulSpecImpl, NegSpecImpl, SubSpecImpl};
use vstd::string::*;

use crate::text::{push_at_least, push_decimal};
use crate::text;

verus! {

/// Fractional bits. This dictates the portion of single-number storage
/// devoted to the fractional portion. Using this fixed shift value is how
/// we end up with a base unit of distance (1/1024m) that allows us to
/// do simulation calculations with cheap and fast integer math.
pub const FIXED_SHIFT: u32 = 10;

/// One meter in raw units.
pub const FIXED_ONE: i32 = 1024;

/// A scalar distance or coordinate, in units of 1/1024 m.
#[derive(Clone, Copy, PartialEq, Eq, PartialOrd, Ord, Hash, Debug, Structural)]
pub struct Fixed(pub i32);

/// A quotient rounded toward zero, which is how integer division rounds.
pub open spec fn quotient(a: int, b: int) -> int {
    if a >= 0 && b > 0 {
        a / b
    } else if a < 0 && b < 0 {
        (-a) / (-b)
    } else if a < 0 {
        -((-a) / b)
    } else {
        -(a / (-b))
    }
}

/// The low 32 bits of an integer, read as signed.
pub open spec fn low_i32(v: int) -> int {
    (v + 0x8000_0000) % 0x1_0000_0000 - 0x8000_0000
}

/// Whether a value fits the representation.
pub open spec fn fits_i32(v: int) -> bool {
    i32::MIN <= v <= i32::MAX
}

/// The largest number whose square does not pass `n`.
pub open spec fn floor_root(n: nat) -> nat {
    choose|r: nat| is_floor_root(n, r)
}

/// Whether `r` is the square root of `n`, rounded down.
pub open spec fn is_floor_root(n: nat, r: nat) -> bool {
    r * r <= n < (r + 1) * (r + 1)
}

/// A number has one root.
pub proof fn lemma_floor_root_unique(n: nat, r: nat)
    requires
        is_floor_root(n, r),
    ensures
        floor_root(n) == r,
{
    let s = floor_root(n);
    assert(is_floor_root(n, s));
    assert(s == r) by (nonlinear_arith)
        requires
            s * s <= n < (s + 1) * (s + 1),
            r * r <= n < (r + 1) * (r + 1),
    ;
}

/// The signed product of two 32-bit values fits 64 bits with room to spare.
proof fn lemma_wide_product(a: i32, b: i32)
    ensures
        -0x4000_0000_0000_0000 <= a * b <= 0x4000_0000_0000_0000,
{
    assert(-0x4000_0000_0000_0000 <= a * b <= 0x4000_0000_0000_0000) by (nonlinear_arith)
        requires
            -0x8000_0000 <= a <= 0x7fff_ffff,
            -0x8000_0000 <= b <= 0x7fff_ffff,
    ;
}

impl Fixed {
    /// No distance at all.
    pub fn zero() -> (r: Fixed)
        ensures
            r == Fixed(0),
    {
        Fixed(0)
    }

    /// One meter.
    pub fn one() -> (r: Fixed)
        ensures
            r == Fixed(1024),
    {
        Fixed(FIXED_ONE)
    }

    /// Smallest representable step: 1/1024 m.
    pub fn epsilon() -> (r: Fixed)
        ensures
            r == Fixed(1),
    {
        Fixed(1)
    }

    /// From whole meters.
    pub fn from_meters(m: i32) -> (r: Fixed)
        requires
            fits_i32(m * 1024),
        ensures
            r.0 == m * 1024,
    {
        Fixed(m * FIXED_ONE)
    }

    /// From meters and thousandths, e.g. `from_millis(3, 500)` is 3.5 m.
    /// Rounds toward zero; 1/1000 is not exactly representable in binary.
    pub fn from_millis(m: i32, milli: i32) -> (r: Fixed)
        requires
            fits_i32(m * 1024),
            fits_i32(milli * 1024),
            fits_i32(m * 1024 + quotient(milli * 1024, 1000)),
        ensures
            r.0 == m * 1024 + quotient(milli * 1024, 1000),
    {
        let part: i32 = (milli * FIXED_ONE).checked_div(1000).unwrap();
        Fixed(m * FIXED_ONE + part)
    }

    /// From meters and millimeters: another name for [`Fixed::from_millis`].
    pub fn from_millimeters(m: i32, mm: i32) -> (r: Fixed)
        requires
            fits_i32(m * 1024),
            fits_i32(mm * 1024),
            fits_i32(m * 1024 + quotient(mm * 1024, 1000)),
        ensures
            r.0 == m * 1024 + quotient(mm * 1024, 1000),
    {
        Fixed::from_millis(m, mm)
    }

    /// From raw internal units. Use when the value is already scaled.
    pub fn from_raw(raw: i32) -> (r: Fixed)
        ensures
            r == Fixed(raw),
    {
        Fixed(raw)
    }

    /// The underlying scaled integer.
    pub fn raw(self) -> (raw: i32)
        ensures
            raw == self.0,
    {
        self.0
    }

    /// Whole meters, truncated toward negative infinity.
    pub fn floor_meters(self) -> (m: i32)
        ensures
            m == self.0 as int / 1024,
    {
        let raw: i32 = self.0;
        assert(raw >> 10u32 == raw as int / 1024) by (bit_vector);
        raw >> FIXED_SHIFT
    }

    /// The distance without its sign.
    pub fn abs(self) -> (r: Fixed)
        requires
            self.0 != i32::MIN,
        ensures
            r.0 == if self.0 < 0 {
                -(self.0 as int)
            } else {
                self.0 as int
            },
    {
        if self.0 < 0 {
            Fixed(-self.0)
        } else {
            self
        }
    }

    /// The smaller of two.
    pub fn min(self, other: Fixed) -> (r: Fixed)
        ensures
            r == if self.0 < other.0 {
                self
            } else {
                other
            },
    {
        if self.0 < other.0 {
            self
        } else {
            other
        }
    }

    /// The larger of two.
    pub fn max(self, other: Fixed) -> (r: Fixed)
        ensures
            r == if self.0 > other.0 {
                self
            } else {
                other
            },
    {
        if self.0 > other.0 {
            self
        } else {
            other
        }
    }

    /// Clamp into `[lo, hi]`.
    pub fn clamp(self, lo: Fixed, hi: Fixed) -> (r: Fixed)
        requires
            lo.0 <= hi.0,
        ensures
            r == if self.0 < lo.0 {
                lo
            } else if self.0 > hi.0 {
                hi
            } else {
                self
            },
    {
        self.max(lo).min(hi)
    }

    // -- checked / saturating ---------------------------------------------
    //
    // For simulation state, pick explicitly: checked at boundaries where bad
    // input can arrive, plain ops in the hot path where ranges are already
    // validated.

    /// The sum, or nothing where it does not fit.
    pub fn checked_add(self, rhs: Fixed) -> (r: Option<Fixed>)
        ensures
            r == if fits_i32(self.0 + rhs.0) {
                Some(Fixed((self.0 + rhs.0) as i32))
            } else {
                None
            },
    {
        match self.0.checked_add(rhs.0) {
            Some(v) => Some(Fixed(v)),
            None => None,
        }
    }

    /// The difference, or nothing where it does not fit.
    pub fn checked_sub(self, rhs: Fixed) -> (r: Option<Fixed>)
        ensures
            r == if fits_i32(self.0 - rhs.0) {
                Some(Fixed((self.0 - rhs.0) as i32))
            } else {
                None
            },
    {
        match self.0.checked_sub(rhs.0) {
            Some(v) => Some(Fixed(v)),
            None => None,
        }
    }

    /// The product of the raw values brought back down to one scale, rounded
    /// toward negative infinity.
    fn wide_mul(self, rhs: Fixed) -> (wide: i64)
        ensures
            wide == (self.0 * rhs.0) / 1024,
    {
        proof {
            lemma_wide_product(self.0, rhs.0);
        }
        let product: i64 = self.0 as i64 * rhs.0 as i64;
        assert(product >> 10u32 == product as int / 1024) by (bit_vector);
        product >> FIXED_SHIFT
    }

    /// Multiply two fixed-point values, checked against `i32` range.
    pub fn checked_mul(self, rhs: Fixed) -> (r: Option<Fixed>)
        ensures
            r == if fits_i32((self.0 * rhs.0) / 1024) {
                Some(Fixed(((self.0 * rhs.0) / 1024) as i32))
            } else {
                None
            },
    {
        let wide: i64 = self.wide_mul(rhs);
        if wide < i32::MIN as i64 || wide > i32::MAX as i64 {
            None
        } else {
            Some(Fixed(wide as i32))
        }
    }

    /// The sum, held to the representable range.
    pub fn saturating_add(self, rhs: Fixed) -> (r: Fixed)
        ensures
            r.0 == if self.0 + rhs.0 > i32::MAX {
                i32::MAX as int
            } else if self.0 + rhs.0 < i32::MIN {
                i32::MIN as int
            } else {
                self.0 + rhs.0
            },
    {
        match self.0.checked_add(rhs.0) {
            Some(v) => Fixed(v),
            None => if rhs.0 > 0 {
                Fixed(i32::MAX)
            } else {
                Fixed(i32::MIN)
            },
        }
    }

    /// The difference, held to the representable range.
    pub fn saturating_sub(self, rhs: Fixed) -> (r: Fixed)
        ensures
            r.0 == if self.0 - rhs.0 > i32::MAX {
                i32::MAX as int
            } else if self.0 - rhs.0 < i32::MIN {
                i32::MIN as int
            } else {
                self.0 - rhs.0
            },
    {
        match self.0.checked_sub(rhs.0) {
            Some(v) => Fixed(v),
            None => if rhs.0 < 0 {
                Fixed(i32::MAX)
            } else {
                Fixed(i32::MIN)
            },
        }
    }

    /// Adds in place.
    pub fn add_assign(&mut self, rhs: Fixed)
        requires
            fits_i32(old(self).0 + rhs.0),
        ensures
            final(self).0 == old(self).0 + rhs.0,
    {
        self.0 = self.0 + rhs.0;
    }

    /// Subtracts in place.
    pub fn sub_assign(&mut self, rhs: Fixed)
        requires
            fits_i32(old(self).0 - rhs.0),
        ensures
            final(self).0 == old(self).0 - rhs.0,
    {
        self.0 = self.0 - rhs.0;
    }

    /// The thousandths of a meter a value shows, after its whole meters.
    pub open spec fn shown_milli(self) -> nat {
        let abs = if self.0 < 0 {
            -(self.0 as int)
        } else {
            self.0 as int
        };
        ((abs % 1024) * 1000 / 1024) as nat
    }

    /// A value as text: meters to three decimal places.
    pub open spec fn text(self) -> Seq<char> {
        let abs = if self.0 < 0 {
            -(self.0 as int)
        } else {
            self.0 as int
        };
        (if self.0 < 0 {
            seq!['-']
        } else {
            Seq::empty()
        }) + text::decimal((abs / 1024) as nat) + seq!['.'] + text::at_least(
            self.shown_milli(),
            10,
            3,
        ) + seq!['m']
    }

    /// Appends a value as text, computed without floating point so output is
    /// identical everywhere.
    pub fn push_text(self, out: &mut String)
        ensures
            final(out)@ == old(out)@ + self.text(),
    {
        proof {
            reveal_strlit("-");
            reveal_strlit(".");
            reveal_strlit("m");
            assert("-"@ =~= seq!['-']);
            assert("."@ =~= seq!['.']);
            assert("m"@ =~= seq!['m']);
        }
        let abs: u64 = if self.0 < 0 {
            (-(self.0 as i64)) as u64
        } else {
            self.0 as u64
        };
        if self.0 < 0 {
            out.append("-");
        }
        push_decimal(out, abs / 1024);
        out.append(".");
        push_at_least(out, (abs % 1024) * 1000 / 1024, 10, 3);
        out.append("m");
        assert(out@ =~= old(out)@ + self.text());
    }

    /// The value in meters, such as `-4.000m`.
    pub fn to_string(&self) -> (s: String)
        ensures
            s@ == self.text(),
    {
        let mut s = String::new();
        self.push_text(&mut s);
        assert(s@ =~= self.text());
        s
    }
}

impl Default for Fixed {
    /// Zero.
    fn default() -> (r: Fixed)
        ensures
            r == Fixed(0),
    {
        Fixed(0)
    }
}

// ---------------------------------------------------------------------------
// Operators
// ---------------------------------------------------------------------------

impl Add for Fixed {
    type Output = Fixed;

    /// Scales already match, so this is a plain integer add.
    fn add(self, rhs: Fixed) -> (r: Fixed) {
        Fixed(self.0 + rhs.0)
    }
}

impl AddSpecImpl for Fixed {
    open spec fn obeys_add_spec() -> bool {
        true
    }

    open spec fn add_req(self, rhs: Fixed) -> bool {
        fits_i32(self.0 + rhs.0)
    }

    open spec fn add_spec(self, rhs: Fixed) -> Fixed {
        Fixed((self.0 + rhs.0) as i32)
    }
}

impl Sub for Fixed {
    type Output = Fixed;

    fn sub(self, rhs: Fixed) -> (r: Fixed) {
        Fixed(self.0 - rhs.0)
    }
}

impl SubSpecImpl for Fixed {
    open spec fn obeys_sub_spec() -> bool {
        true
    }

    open spec fn sub_req(self, rhs: Fixed) -> bool {
        fits_i32(self.0 - rhs.0)
    }

    open spec fn sub_spec(self, rhs: Fixed) -> Fixed {
        Fixed((self.0 - rhs.0) as i32)
    }
}

impl Neg for Fixed {
    type Output = Fixed;

    fn neg(self) -> (r: Fixed) {
        Fixed(-self.0)
    }
}

impl NegSpecImpl for Fixed {
    open spec fn obeys_neg_spec() -> bool {
        true
    }

    open spec fn neg_req(self) -> bool {
        self.0 != i32::MIN
    }

    open spec fn neg_spec(self) -> Fixed {
        Fixed((-self.0) as i32)
    }
}

impl Mul for Fixed {
    type Output = Fixed;

    /// Fixed times fixed. The raw product carries 20 fractional bits, so it
    /// is shifted back down by 10. Widened to `i64` first because two 32-bit
    /// values overflow `i32` before the shift can bring them back in range.
    /// What does not fit even then keeps its low 32 bits.
    fn mul(self, rhs: Fixed) -> (r: Fixed) {
        let wide: i64 = self.wide_mul(rhs);
        assert((wide as i32) as int == low_i32(wide as int)) by {
            assert((wide as i32) as int == (wide + 0x8000_0000) % 0x1_0000_0000 - 0x8000_0000)
                by (bit_vector);
        }
        Fixed(#[verifier::truncate] (wide as i32))
    }
}

impl MulSpecImpl for Fixed {
    open spec fn obeys_mul_spec() -> bool {
        true
    }

    open spec fn mul_req(self, rhs: Fixed) -> bool {
        true
    }

    open spec fn mul_spec(self, rhs: Fixed) -> Fixed {
        Fixed(low_i32((self.0 * rhs.0) / 1024) as i32)
    }
}

impl Mul<i32> for Fixed {
    type Output = Fixed;

    /// Scale up by a value. No shift needed.
    fn mul(self, rhs: i32) -> (r: Fixed) {
        Fixed(self.0 * rhs)
    }
}

impl MulSpecImpl<i32> for Fixed {
    open spec fn obeys_mul_spec() -> bool {
        true
    }

    open spec fn mul_req(self, rhs: i32) -> bool {
        fits_i32(self.0 * rhs)
    }

    open spec fn mul_spec(self, rhs: i32) -> Fixed {
        Fixed((self.0 * rhs) as i32)
    }
}

impl Div for Fixed {
    type Output = Fixed;

    /// Fixed divided by fixed. Shifted up before dividing. A quotient that
    /// does not fit keeps its low 32 bits.
    fn div(self, rhs: Fixed) -> (r: Fixed) {
        let up: i64 = self.0 as i64 * 1024;
        let wide: i64 = up.checked_div(rhs.0 as i64).unwrap();
        assert(wide == quotient(self.0 * 1024, rhs.0 as int));
        assert((wide as i32) as int == low_i32(wide as int)) by {
            assert((wide as i32) as int == (wide + 0x8000_0000) % 0x1_0000_0000 - 0x8000_0000)
                by (bit_vector);
        }
        Fixed(#[verifier::truncate] (wide as i32))
    }
}

impl DivSpecImpl for Fixed {
    open spec fn obeys_div_spec() -> bool {
        true
    }

    open spec fn div_req(self, rhs: Fixed) -> bool {
        rhs.0 != 0
    }

    open spec fn div_spec(self, rhs: Fixed) -> Fixed {
        Fixed(low_i32(quotient(self.0 * 1024, rhs.0 as int)) as i32)
    }
}

impl Div<i32> for Fixed {
    type Output = Fixed;

    /// Divide fixed by scalar (scale down).
    fn div(self, rhs: i32) -> (r: Fixed) {
        Fixed(self.0.checked_div(rhs).unwrap())
    }
}

impl DivSpecImpl<i32> for Fixed {
    open spec fn obeys_div_spec() -> bool {
        true
    }

    open spec fn div_req(self, rhs: i32) -> bool {
        rhs != 0 && fits_i32(quotient(self.0 as int, rhs as int))
    }

    open spec fn div_spec(self, rhs: i32) -> Fixed {
        Fixed(quotient(self.0 as int, rhs as int) as i32)
    }
}

// ---------------------------------------------------------------------------
// Squared distance
// ---------------------------------------------------------------------------

/// A squared distance, in raw-units-squared.
///
/// Deliberately not a [`Fixed`]. Squaring doubles the fractional bits and the
/// magnitude overflows `i32`: across a 4 km region the largest squared
/// separation is around 5.3e13, which needs 64 bits.
///
/// Ordering is preserved by squaring, so comparisons work directly and
/// ranking algorithms never need a square root.
#[derive(Clone, Copy, PartialEq, Eq, PartialOrd, Ord, Debug, Structural)]
pub struct DistSq(pub u64);

impl Default for DistSq {
    /// No separation.
    fn default() -> (r: DistSq)
        ensures
            r == DistSq(0),
    {
        DistSq(0)
    }
}

impl DistSq {
    /// Square a radius so it can be compared against a [`DistSq`].
    pub fn from_radius(r: Fixed) -> (d: DistSq)
        ensures
            d.0 == r.0 * r.0,
    {
        proof {
            lemma_wide_product(r.0, r.0);
            assert(r.0 * r.0 >= 0) by (nonlinear_arith);
        }
        let raw: i64 = r.0 as i64;
        DistSq((raw * raw) as u64)
    }

    /// From raw units squared.
    pub fn from_raw(raw: u64) -> (d: DistSq)
        ensures
            d == DistSq(raw),
    {
        DistSq(raw)
    }

    /// Raw units squared.
    pub fn raw(self) -> (raw: u64)
        ensures
            raw == self.0,
    {
        self.0
    }

    /// Distance via integer square root, rounded down. For display and coarse
    /// bucketing only. For comparison use the squared values. A root past the
    /// range of [`Fixed`] keeps its low 32 bits.
    pub fn sqrt_approx(self) -> (r: Fixed)
        requires
            self.0 < u64::MAX,
        ensures
            r.0 == low_i32(floor_root(self.0 as nat) as int),
    {
        let n: u64 = self.0;
        if n == 0 {
            proof {
                assert(is_floor_root(0, 0)) by (nonlinear_arith);
                lemma_floor_root_unique(0, 0);
            }
            return Fixed(0);
        }
        let mut x: u64 = n;
        let mut y: u64 = (x + 1) / 2;
        assert(n as int / n as int == 1) by (nonlinear_arith)
            requires
                n > 0,
        ;
        assert((x + 1) * (x + 1) > n) by (nonlinear_arith)
            requires
                x == n,
        ;
        while y < x
            invariant
                0 < n < u64::MAX,
                1 <= x <= n,
                y == (x + n / x) / 2,
                (x + 1) * (x + 1) > n,
            decreases x,
        {
            let ghost q = n as int / x as int;
            let ghost z = x as int;
            x = y;
            proof {
                assert(q >= 1 && z * (q + 1) > n) by (nonlinear_arith)
                    requires
                        1 <= z <= n,
                        q == n as int / z,
                ;
                assert(4 * (x + 1) * (x + 1) > 4 * n) by (nonlinear_arith)
                    requires
                        x == (z + q) / 2,
                        z * (q + 1) > n,
                        z >= 1,
                        q >= 1,
                {
                    assert(2 * (x + 1) >= z + q + 1);
                    assert((z + q + 1) * (z + q + 1) - 4 * (z * (q + 1)) == (z - q - 1) * (z - q
                        - 1));
                    assert((z - q - 1) * (z - q - 1) >= 0);
                    assert((2 * (x + 1)) * (2 * (x + 1)) >= (z + q + 1) * (z + q + 1));
                }
                assert((x + 1) * (x + 1) > n) by (nonlinear_arith)
                    requires
                        4 * (x + 1) * (x + 1) > 4 * n,
                ;
                assert(x as int + n as int / x as int <= n + 1) by (nonlinear_arith)
                    requires
                        1 <= x <= n,
                {
                    let p = n as int / x as int;
                    assert(p >= 1 && p * x <= n);
                    assert((x - 1) * (p - 1) >= 0);
                }
            }
            y = (x + n / x) / 2;
        }
        proof {
            assert(x as nat * x as nat <= n) by (nonlinear_arith)
                requires
                    (x as int + n as int / x as int) / 2 >= x as int,
                    x >= 1,
            ;
            lemma_floor_root_unique(n as nat, x as nat);
            assert((x as i32) as int == low_i32(x as int)) by {
                assert((x as i32) as int == (x + 0x8000_0000) % 0x1_0000_0000 - 0x8000_0000)
                    by (bit_vector);
            }
        }
        Fixed(#[verifier::truncate] (x as i32))
    }
}

/// Squaring keeps order: of two distances, the one whose square is smaller is
/// the smaller.
pub proof fn law_squaring_keeps_order(a: Fixed, b: Fixed)
    requires
        0 <= a.0,
        0 <= b.0,
    ensures
        a.0 < b.0 <==> a.0 * a.0 < b.0 * b.0,
{
    assert(a.0 < b.0 <==> a.0 * a.0 < b.0 * b.0) by (nonlinear_arith)
        requires
            0 <= a.0,
            0 <= b.0,
    ;
}

/// A radius squared and rooted again is the radius.
pub proof fn law_root_undoes_square(r: Fixed)
    requires
        0 <= r.0,
    ensures
        low_i32(floor_root((r.0 * r.0) as nat) as int) == r.0,
{
    assert(is_floor_root((r.0 * r.0) as nat, r.0 as nat)) by (nonlinear_arith)
        requires
            0 <= r.0,
    ;
    lemma_floor_root_unique((r.0 * r.0) as nat, r.0 as nat);
}

/// Whole meters come back out of a value made from them.
pub proof fn law_meters_round_trip(m: i32)
    requires
        fits_i32(m * 1024),
    ensures
        (m * 1024) / 1024 == m,
{
}

/// A sum is the sum of the raw values where it fits, and a difference undoes
/// it; a negative is what a value adds to nothing with.
pub proof fn law_a_difference_undoes_a_sum(a: Fixed, b: Fixed)
    requires
        fits_i32(a.0 + b.0),
    ensures
        vstd::std_specs::ops::AddSpec::add_spec(a, b).0 == a.0 + b.0,
        vstd::std_specs::ops::AddSpec::add_spec(b, a) == vstd::std_specs::ops::AddSpec::add_spec(a, b),
        vstd::std_specs::ops::SubSpec::sub_spec(vstd::std_specs::ops::AddSpec::add_spec(a, b), b) == a,
        a.0 != i32::MIN ==> vstd::std_specs::ops::AddSpec::add_spec(a, vstd::std_specs::ops::NegSpec::neg_spec(a)).0 == 0,
{
}

/// A product is the real one rounded down to a unit where it fits: a meter
/// times anything is that thing.
pub proof fn law_a_product_is_exact_to_the_unit(a: Fixed, b: Fixed, n: i32)
    requires
        fits_i32((a.0 * b.0) / 1024),
    ensures
        ({
            let r = <Fixed as vstd::std_specs::ops::MulSpec<Fixed>>::mul_spec(a, b);
            1024 * r.0 <= a.0 * b.0 < 1024 * r.0 + 1024
        }),
        <Fixed as vstd::std_specs::ops::MulSpec<Fixed>>::mul_spec(Fixed(1024), a) == a,
        fits_i32(a.0 * n) ==> <Fixed as vstd::std_specs::ops::MulSpec<i32>>::mul_spec(a, n).0 == a.0 * n,
{
    assert(low_i32((1024 * a.0) / 1024) == a.0);
}

/// A quotient is the real one cut off toward zero: what it leaves is smaller
/// than the divisor, and it goes no further than what was divided.
pub proof fn law_a_quotient_is_cut_off_toward_zero(a: int, b: int)
    requires
        b != 0,
    ensures
        vstd::math::abs(a - quotient(a, b) * b) < vstd::math::abs(b),
        vstd::math::abs(quotient(a, b) * b) <= vstd::math::abs(a),
{
    let q = quotient(a, b);
    let (m, d) = (vstd::math::abs(a) as int, vstd::math::abs(b) as int);
    assert(0 <= (m / d) * d <= m && m - (m / d) * d < d) by (nonlinear_arith)
        requires
            m >= 0,
            d > 0,
    ;
    if a >= 0 && b > 0 {
        assert(q * b == (m / d) * d);
    } else if a < 0 && b < 0 {
        assert(q * b == -((m / d) * d)) by (nonlinear_arith)
            requires
                q == m / d,
                b == -d,
        ;
    } else if a < 0 {
        assert(q * b == -((m / d) * d)) by (nonlinear_arith)
            requires
                q == -(m / d),
                b == d,
        ;
    } else {
        assert(q * b == (m / d) * d) by (nonlinear_arith)
            requires
                q == -(m / d),
                b == -d,
        ;
    }
}

/// Dividing by a value divides by its meters, and by a number by that many.
pub proof fn law_a_division_is_by_meters_or_by_number(a: Fixed, b: Fixed, n: i32)
    requires
        b.0 != 0,
        n != 0,
    ensures
        fits_i32(quotient(a.0 * 1024, b.0 as int)) ==> <Fixed as vstd::std_specs::ops::DivSpec<Fixed>>::div_spec(
            a,
            b,
        ).0 == quotient(a.0 * 1024, b.0 as int),
        fits_i32(quotient(a.0 as int, n as int)) ==> <Fixed as vstd::std_specs::ops::DivSpec<i32>>::div_spec(a, n).0
            == quotient(a.0 as int, n as int),
        <Fixed as vstd::std_specs::ops::DivSpec<Fixed>>::div_spec(a, Fixed(1024)) == a,
{
    assert(quotient(a.0 * 1024, 1024) == a.0);
}

} // verus!
