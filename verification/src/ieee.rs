//! Order and zero test of IEEE 754 numbers, read from their bit patterns, and
//! the conversion of an integer to the nearest single-precision number.
use crate::datatypes::{Double, Float};
use vstd::prelude::*;

verus! {

/// 2 to the power `e`.
pub open spec fn two_to(e: nat) -> nat
    decreases e,
{
    if e == 0 {
        1
    } else {
        2 * two_to((e - 1) as nat)
    }
}

/// The position of the highest set bit of `m`, for `m` at least 1.
pub open spec fn top_bit(m: nat) -> nat
    decreases m,
{
    if m <= 1 {
        0
    } else {
        1 + top_bit(m / 2)
    }
}

/// The 24-bit significand nearest to `m`, a number with highest bit `e`:
/// `m` scaled up where it is short, and rounded to nearest, ties to even,
/// where it is long. The result may be 2^24, when rounding carries.
pub open spec fn significand(m: nat, e: nat) -> nat {
    if e <= 23 {
        m * two_to((23 - e) as nat)
    } else {
        let unit = two_to((e - 23) as nat);
        let kept = m / unit;
        let lost = m % unit;
        if 2 * lost > unit || (2 * lost == unit && kept % 2 == 1) {
            kept + 1
        } else {
            kept
        }
    }
}

/// The single-precision number nearest to the integer `n`, ties to even:
/// what a conversion of `n` gives.
pub open spec fn float_of_int(n: int) -> Float {
    if n == 0 {
        Float(0)
    } else {
        let m = (if n < 0 {
            -n
        } else {
            n
        }) as nat;
        let e = top_bit(m);
        let sign: int = if n < 0 {
            0x8000_0000
        } else {
            0
        };
        Float((sign + (e + 127) * 0x80_0000 + significand(m, e) - 0x80_0000) as u32)
    }
}

impl Float {
    /// True for the patterns that are not a number.
    pub open spec fn nan(self) -> bool {
        self.0 % 0x8000_0000 > 0x7f80_0000
    }

    /// A number's place in the order of all numbers: the magnitude bits,
    /// negated where the sign bit is set. Both zeros have the place 0.
    pub open spec fn rank(self) -> int {
        if self.0 < 0x8000_0000 {
            self.0 as int
        } else {
            0x8000_0000 - self.0
        }
    }

    /// `self < other` as IEEE 754 has it: false when either is not a number.
    pub open spec fn less_than(self, other: Float) -> bool {
        !self.nan() && !other.nan() && self.rank() < other.rank()
    }

    /// `self == 0.0` as IEEE 754 has it: true of both zeros.
    pub open spec fn zero(self) -> bool {
        self.0 % 0x8000_0000 == 0
    }

    /// Whether the pattern is not a number.
    pub fn is_nan(self) -> (r: bool)
        ensures
            r == self.nan(),
    {
        self.0 % 0x8000_0000 > 0x7f80_0000
    }

    /// Whether `self < other`.
    pub fn lt(self, other: Float) -> (r: bool)
        ensures
            r == self.less_than(other),
    {
        if self.is_nan() || other.is_nan() {
            return false;
        }
        let a: i64 = if self.0 < 0x8000_0000 {
            self.0 as i64
        } else {
            0x8000_0000 - self.0 as i64
        };
        let b: i64 = if other.0 < 0x8000_0000 {
            other.0 as i64
        } else {
            0x8000_0000 - other.0 as i64
        };
        a < b
    }

    /// Whether `self == 0.0`.
    pub fn is_zero(self) -> (r: bool)
        ensures
            r == self.zero(),
    {
        self.0 % 0x8000_0000 == 0
    }

    /// The number nearest to `n`.
    pub fn from_int(n: i64) -> (r: Float)
        ensures
            r == float_of_int(n as int),
    {
        if n == 0 {
            return Float(0);
        }
        let wide: i128 = n as i128;
        let m: u64 = (if wide < 0 {
            -wide
        } else {
            wide
        }) as u64;
        let mut e: u32 = 0;
        let mut rest: u64 = m;
        let mut span: u64 = 1;
        while rest > 1
            invariant
                rest >= 1,
                e <= 63,
                span == two_to(e as nat),
                top_bit(m as nat) == e + top_bit(rest as nat),
                span * rest <= m < span * (rest + 1),
            decreases rest,
        {
            proof {
                let half = rest / 2;
                assert(span * rest >= span * (2 * half)) by (nonlinear_arith)
                    requires
                        rest >= 2 * half,
                ;
                assert(span * (rest + 1) <= span * (2 * (half + 1))) by (nonlinear_arith)
                    requires
                        rest + 1 <= 2 * (half + 1),
                ;
                assert(span * (2 * half) == (2 * span) * half) by (nonlinear_arith);
                assert(span * (2 * (half + 1)) == (2 * span) * (half + 1)) by (nonlinear_arith);
                assert((2 * span) * half >= 2 * span) by (nonlinear_arith)
                    requires
                        half >= 1,
                ;
                lemma_two_to_bound(e as nat);
                if e >= 63 {
                    assert(two_to(63) == 0x8000_0000_0000_0000) by {
                        lemma_two_to_values();
                    }
                    assert(false);
                }
            }
            rest = rest / 2;
            span = span * 2;
            e = e + 1;
        }
        assert(span <= m < 2 * span) by (nonlinear_arith)
            requires
                rest == 1,
                span * rest <= m < span * (rest + 1),
        ;
        let ghost shape = significand(m as nat, e as nat);
        let mantissa: u64 = if e <= 23 {
            let mut scaled: u64 = m;
            let mut k: u32 = e;
            proof {
                lemma_two_to_values();
                assert(m * 1 == m) by (nonlinear_arith);
            }
            while k < 23
                invariant
                    e <= k <= 23,
                    scaled == m * two_to((k - e) as nat),
                    span == two_to(e as nat),
                    span <= m < 2 * span,
                    scaled < 2 * two_to(k as nat),
                    two_to(k as nat) <= scaled,
                decreases 23 - k,
            {
                proof {
                    lemma_two_to_values();
                    lemma_two_to_grows(k as nat, 23);
                    assert(two_to((k + 1 - e) as nat) == 2 * two_to((k - e) as nat));
                    assert(m * (2 * two_to((k - e) as nat)) == 2 * (m * two_to((k - e) as nat)))
                        by (nonlinear_arith);
                }
                scaled = scaled * 2;
                k = k + 1;
            }
            scaled
        } else {
            let mut unit: u64 = 1;
            let mut k: u32 = 23;
            while k < e
                invariant
                    23 <= k <= e <= 63,
                    unit == two_to((k - 23) as nat),
                    unit >= 1,
                decreases e - k,
            {
                proof {
                    lemma_two_to_grows((k - 23) as nat, 40);
                    lemma_two_to_values();
                }
                unit = unit * 2;
                k = k + 1;
            }
            let kept = m / unit;
            let lost = m % unit;
            proof {
                lemma_two_to_values();
                lemma_two_to_sum(23, (e - 23) as nat);
                lemma_kept_range(m as nat, unit as nat, span as nat);
            }
            if 2 * (lost as u128) > unit as u128 || (2 * (lost as u128) == unit as u128 && kept % 2
                == 1) {
                kept + 1
            } else {
                kept
            }
        };
        proof {
            lemma_two_to_values();
            if e <= 23 {
                lemma_two_to_sum(e as nat, (23 - e) as nat);
            }
        }
        assert(mantissa == shape);
        assert(0x80_0000 <= mantissa <= 0x100_0000);
        let sign: u64 = if n < 0 {
            0x8000_0000
        } else {
            0
        };
        let bits: u64 = sign + (e as u64 + 127) * 0x80_0000 + mantissa - 0x80_0000;
        Float(bits as u32)
    }
}

/// The powers of two that the conversion meets.
proof fn lemma_two_to_values()
    ensures
        two_to(0) == 1,
        two_to(1) == 2,
        two_to(23) == 0x80_0000,
        two_to(24) == 0x100_0000,
        two_to(40) == 0x100_0000_0000,
        two_to(63) == 0x8000_0000_0000_0000,
        two_to(64) == 0x1_0000_0000_0000_0000,
{
    reveal_with_fuel(two_to, 65);
}

/// Powers of two grow: one of at most 63 fits 64 bits.
proof fn lemma_two_to_bound(e: nat)
    ensures
        two_to(e) >= 1,
        e <= 63 ==> two_to(e) <= 0x8000_0000_0000_0000,
    decreases 64 - e,
{
    lemma_two_to_values();
    if e < 63 {
        lemma_two_to_bound(e + 1);
    } else if e > 63 {
        lemma_two_to_positive(e);
    }
}

proof fn lemma_two_to_positive(e: nat)
    ensures
        two_to(e) >= 1,
    decreases e,
{
    if e > 0 {
        lemma_two_to_positive((e - 1) as nat);
    }
}

/// Powers of two multiply by adding exponents.
proof fn lemma_two_to_sum(a: nat, b: nat)
    ensures
        two_to(a) * two_to(b) == two_to(a + b),
    decreases a,
{
    if a > 0 {
        let less = (a - 1) as nat;
        lemma_two_to_sum(less, b);
        assert(two_to(a + b) == 2 * two_to((a + b - 1) as nat));
        assert(less + b == a + b - 1);
        assert((2 * two_to(less)) * two_to(b) == 2 * (two_to(less) * two_to(b)))
            by (nonlinear_arith);
    } else {
        assert(1 * two_to(b) == two_to(b)) by (nonlinear_arith);
    }
}

/// Powers of two grow with their exponent.
proof fn lemma_two_to_grows(a: nat, b: nat)
    requires
        a <= b,
    ensures
        two_to(a) <= two_to(b),
    decreases b - a,
{
    if a < b {
        lemma_two_to_grows(a, (b - 1) as nat);
    }
}

/// Where `m` has its highest bit 23 places above the unit, the units it
/// holds are a 24-bit number.
proof fn lemma_kept_range(m: nat, unit: nat, span: nat)
    requires
        unit >= 1,
        span == 0x80_0000 * unit,
        span <= m < 2 * span,
    ensures
        0x80_0000 <= m / unit < 0x100_0000,
{
    vstd::arithmetic::div_mod::lemma_fundamental_div_mod(m as int, unit as int);
    let kept = m / unit;
    let lost = m % unit;
    assert(kept >= 0x80_0000) by (nonlinear_arith)
        requires
            m == unit * kept + lost,
            0 <= lost < unit,
            m >= 0x80_0000 * unit,
            unit >= 1,
    ;
    assert(kept < 0x100_0000) by (nonlinear_arith)
        requires
            m == unit * kept + lost,
            0 <= lost < unit,
            m < 0x100_0000 * unit,
            unit >= 1,
    ;
}

/// The highest bit of `m` is set, and no higher bit is.
pub proof fn lemma_top_bit(m: nat)
    requires
        m >= 1,
    ensures
        two_to(top_bit(m)) <= m < 2 * two_to(top_bit(m)),
    decreases m,
{
    if m > 1 {
        lemma_top_bit(m / 2);
    }
}

/// A larger number has its highest bit no lower.
pub proof fn lemma_top_bit_grows(a: nat, b: nat)
    requires
        1 <= a <= b,
    ensures
        top_bit(a) <= top_bit(b),
    decreases b,
{
    if a > 1 {
        lemma_top_bit_grows(a / 2, b / 2);
    }
}

/// The place, in the order of all numbers, of what a whole number of at most
/// 24 bits converts to.
proof fn lemma_small_rank(n: int)
    requires
        -0x100_0000 <= n <= 0x100_0000,
        n != 0,
    ensures
        !float_of_int(n).nan(),
        ({
            let m = (if n < 0 {
                -n
            } else {
                n
            }) as nat;
            let e = top_bit(m);
            let place = (e + 127) * 0x80_0000 + significand(m, e) - 0x80_0000;
            &&& e <= 24
            &&& 0x80_0000 <= significand(m, e) < 0x100_0000
            &&& e <= 23 ==> significand(m, e) == m * two_to((23 - e) as nat)
            &&& float_of_int(n).rank() == (if n < 0 {
                -place
            } else {
                place
            })
        }),
{
    let m = (if n < 0 {
        -n
    } else {
        n
    }) as nat;
    let e = top_bit(m);
    lemma_top_bit(m);
    lemma_two_to_values();
    if e > 24 {
        lemma_two_to_grows(25, e);
        assert(two_to(25) == 2 * two_to(24));
    }
    if e <= 23 {
        let scale = two_to((23 - e) as nat);
        lemma_two_to_sum(e, (23 - e) as nat);
        lemma_two_to_positive((23 - e) as nat);
        assert(two_to(e) * scale <= m * scale) by (nonlinear_arith)
            requires
                two_to(e) <= m,
                scale >= 1,
        ;
        assert(m * scale < (2 * two_to(e)) * scale) by (nonlinear_arith)
            requires
                m < 2 * two_to(e),
                scale >= 1,
        ;
        assert((2 * two_to(e)) * scale == 2 * (two_to(e) * scale)) by (nonlinear_arith);
    } else {
        assert(m == 0x100_0000);
        assert(two_to(1) == 2);
    }
    let place = (e + 127) * 0x80_0000 + significand(m, e) - 0x80_0000;
    assert(127 * 0x80_0000 <= place < 152 * 0x80_0000);
}

/// Whole numbers of at most 24 bits convert without rounding: converted,
/// they stand in the order in which they stand as integers.
pub proof fn lemma_small_integers_keep_their_order(a: int, b: int)
    requires
        -0x100_0000 <= a <= 0x100_0000,
        -0x100_0000 <= b <= 0x100_0000,
    ensures
        float_of_int(a).less_than(float_of_int(b)) <==> a < b,
{
    if a != 0 {
        lemma_small_rank(a);
    }
    if b != 0 {
        lemma_small_rank(b);
    }
    if (a > 0 && b > 0) || (a < 0 && b < 0) {
        let x = (if a < 0 {
            -a
        } else {
            a
        }) as nat;
        let y = (if b < 0 {
            -b
        } else {
            b
        }) as nat;
        if x < y {
            lemma_magnitudes_keep_their_order(x, y);
        }
        if y < x {
            lemma_magnitudes_keep_their_order(y, x);
        }
    }
}

/// Of two positive whole numbers of at most 24 bits, the smaller converts to
/// the smaller significand and exponent.
proof fn lemma_magnitudes_keep_their_order(x: nat, y: nat)
    requires
        1 <= x <= 0x100_0000,
        1 <= y <= 0x100_0000,
        x < y,
    ensures
        (top_bit(x) + 127) * 0x80_0000 + significand(x, top_bit(x)) < (top_bit(y) + 127) * 0x80_0000
            + significand(y, top_bit(y)),
{
    lemma_small_rank(x as int);
    lemma_small_rank(y as int);
    lemma_top_bit_grows(x, y);
    let e = top_bit(x);
    if e == top_bit(y) {
        lemma_top_bit(x);
        lemma_top_bit(y);
        lemma_two_to_values();
        assert(e <= 23);
        let scale = two_to((23 - e) as nat);
        lemma_two_to_positive((23 - e) as nat);
        assert(x * scale < y * scale) by (nonlinear_arith)
            requires
                x < y,
                scale >= 1,
        ;
    }
}

impl Double {
    /// True for the patterns that are not a number.
    pub open spec fn nan(self) -> bool {
        self.0 % 0x8000_0000_0000_0000 > 0x7ff0_0000_0000_0000
    }

    /// A number's place in the order of all numbers: the magnitude bits,
    /// negated where the sign bit is set. Both zeros have the place 0.
    pub open spec fn rank(self) -> int {
        if self.0 < 0x8000_0000_0000_0000 {
            self.0 as int
        } else {
            0x8000_0000_0000_0000 - self.0
        }
    }

    /// `self < other` as IEEE 754 has it: false when either is not a number.
    pub open spec fn less_than(self, other: Double) -> bool {
        !self.nan() && !other.nan() && self.rank() < other.rank()
    }

    /// `self >= other` as IEEE 754 has it: false when either is not a number.
    pub open spec fn at_least(self, other: Double) -> bool {
        !self.nan() && !other.nan() && self.rank() >= other.rank()
    }

    /// Whether the pattern is not a number.
    pub fn is_nan(self) -> (r: bool)
        ensures
            r == self.nan(),
    {
        self.0 % 0x8000_0000_0000_0000 > 0x7ff0_0000_0000_0000
    }

    /// The number's place in the order.
    fn place(self) -> (r: i128)
        ensures
            r == self.rank(),
    {
        if self.0 < 0x8000_0000_0000_0000 {
            self.0 as i128
        } else {
            0x8000_0000_0000_0000 - self.0 as i128
        }
    }

    /// Whether `self < other`.
    pub fn lt(self, other: Double) -> (r: bool)
        ensures
            r == self.less_than(other),
    {
        if self.is_nan() || other.is_nan() {
            return false;
        }
        self.place() < other.place()
    }

    /// Whether `self >= other`.
    pub fn ge(self, other: Double) -> (r: bool)
        ensures
            r == self.at_least(other),
    {
        if self.is_nan() || other.is_nan() {
            return false;
        }
        self.place() >= other.place()
    }
}

} // verus!
