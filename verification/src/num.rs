//! Exact numbers for the formula language.
//!
//! Every value that flows through the pipeline is a fraction `num / den`
//! with a positive denominator, stored in machine integers.  The
//! mathematical meaning of a `Num` is the [`Rat`] returned by its view:
//! an unreduced pair of unbounded integers.  All arithmetic is exact;
//! an operation whose exact result does not fit the machine fields
//! reports that by returning `None` instead of rounding.

use vstd::prelude::*;

verus! {

/// Mathematical value of a number: the fraction `n / d`, with `d > 0`.
pub ghost struct Rat {
    pub n: int,
    pub d: int,
}

/// A rational is well formed when its denominator is positive.
pub open spec fn rat_wf(r: Rat) -> bool {
    r.d > 0
}

/// The rational with value `i`.
pub open spec fn rat_of_int(i: int) -> Rat {
    Rat { n: i, d: 1 }
}

/// Exact sum, as the unreduced pair over the common denominator.
pub open spec fn rat_add(a: Rat, b: Rat) -> Rat {
    Rat { n: a.n * b.d + b.n * a.d, d: a.d * b.d }
}

/// Exact difference, as the unreduced pair over the common denominator.
pub open spec fn rat_sub(a: Rat, b: Rat) -> Rat {
    Rat { n: a.n * b.d - b.n * a.d, d: a.d * b.d }
}

/// Exact product, as the unreduced pair.
pub open spec fn rat_mul(a: Rat, b: Rat) -> Rat {
    Rat { n: a.n * b.n, d: a.d * b.d }
}

/// Exact quotient, with the sign moved into the numerator so the
/// denominator stays positive.  Meaningful only when `b.n != 0`.
pub open spec fn rat_div(a: Rat, b: Rat) -> Rat {
    if b.n < 0 {
        Rat { n: -(a.n * b.d), d: a.d * -b.n }
    } else {
        Rat { n: a.n * b.d, d: a.d * b.n }
    }
}

/// Integer division truncated toward zero, as `/` truncates on
/// machine integers.  Meaningful only when `y != 0`.
pub open spec fn trunc_div(x: int, y: int) -> int {
    if (x < 0) == (y < 0) {
        vstd::math::abs(x) as int / vstd::math::abs(y) as int
    } else {
        -(vstd::math::abs(x) as int / vstd::math::abs(y) as int)
    }
}

/// Remainder whose sign follows the dividend:
/// `a - b * trunc(a / b)`, written over the common denominator.
/// Meaningful only when `b.n != 0`.
pub open spec fn rat_mod(a: Rat, b: Rat) -> Rat {
    let q = trunc_div(a.n * b.d, b.n * a.d);
    Rat { n: a.n * b.d - q * (b.n * a.d), d: a.d * b.d }
}

/// Value equality of two fractions (cross multiplication).
pub open spec fn rat_eq(a: Rat, b: Rat) -> bool {
    a.n * b.d == b.n * a.d
}

/// Strict order on fractions with positive denominators.
pub open spec fn rat_lt(a: Rat, b: Rat) -> bool {
    a.n * b.d < b.n * a.d
}

/// Non-strict order on fractions with positive denominators.
pub open spec fn rat_le(a: Rat, b: Rat) -> bool {
    a.n * b.d <= b.n * a.d
}

/// Whether an exact result can be stored in a `Num`:
/// numerator in `i64`, denominator in `u64`.
pub open spec fn rat_fits(r: Rat) -> bool {
    &&& i64::MIN <= r.n <= i64::MAX
    &&& 1 <= r.d <= u64::MAX
}

/// A number of the formula language: the exact fraction `num / den`.
#[derive(Clone, Copy, Debug, PartialEq, Eq, Structural)]
pub struct Num {
    num: i64,
    den: u64,
}

impl View for Num {
    type V = Rat;

    closed spec fn view(&self) -> Rat {
        Rat { n: self.num as int, d: self.den as int }
    }
}

impl Num {
    #[verifier::type_invariant]
    spec fn type_inv(self) -> bool {
        self.den >= 1
    }

    /// Builds the fraction `num / den`; rejects a zero denominator.
    pub fn new(num: i64, den: u64) -> (r: Option<Num>)
        ensures
            r is Some <==> den >= 1,
            r matches Some(v) ==> v@ == (Rat { n: num as int, d: den as int }),
    {
        if den >= 1 {
            Some(Num { num, den })
        } else {
            None
        }
    }

    /// The whole number `i`.
    pub fn from_int(i: i64) -> (r: Num)
        ensures
            r@ == rat_of_int(i as int),
    {
        Num { num: i, den: 1 }
    }

    /// Numerator of the stored fraction.
    pub fn num(&self) -> (r: i64)
        ensures
            r as int == self@.n,
    {
        self.num
    }

    /// Denominator of the stored fraction; always positive.
    pub fn den(&self) -> (r: u64)
        ensures
            r as int == self@.d,
            r >= 1,
            rat_wf(self@),
    {
        proof {
            use_type_invariant(*self);
        }
        self.den
    }

    /// Exact sum; `None` exactly when the unreduced result leaves the
    /// machine range.
    pub fn checked_add(self, rhs: Num) -> (r: Option<Num>)
        ensures
            r is Some <==> rat_fits(rat_add(self@, rhs@)),
            r matches Some(v) ==> v@ == rat_add(self@, rhs@),
    {
        proof {
            use_type_invariant(self);
            use_type_invariant(rhs);
            lemma_mul_i64_u64_in_range(self.num as int, rhs.den as int);
            lemma_mul_i64_u64_in_range(rhs.num as int, self.den as int);
            lemma_mul_u64_u64_in_range(self.den as int, rhs.den as int);
        }
        let p1: i128 = (self.num as i128) * (rhs.den as i128);
        let p2: i128 = (rhs.num as i128) * (self.den as i128);
        let n: i128 = match p1.checked_add(p2) {
            Some(n) => n,
            None => {
                return None;
            },
        };
        if n < i64::MIN as i128 || n > i64::MAX as i128 {
            return None;
        }
        let d: u128 = (self.den as u128) * (rhs.den as u128);
        if d > u64::MAX as u128 {
            return None;
        }
        Some(Num { num: n as i64, den: d as u64 })
    }

    /// Exact difference; `None` exactly when the unreduced result
    /// leaves the machine range.
    pub fn checked_sub(self, rhs: Num) -> (r: Option<Num>)
        ensures
            r is Some <==> rat_fits(rat_sub(self@, rhs@)),
            r matches Some(v) ==> v@ == rat_sub(self@, rhs@),
    {
        proof {
            use_type_invariant(self);
            use_type_invariant(rhs);
            lemma_mul_i64_u64_in_range(self.num as int, rhs.den as int);
            lemma_mul_i64_u64_in_range(rhs.num as int, self.den as int);
            lemma_mul_u64_u64_in_range(self.den as int, rhs.den as int);
        }
        let p1: i128 = (self.num as i128) * (rhs.den as i128);
        let p2: i128 = (rhs.num as i128) * (self.den as i128);
        let n: i128 = match p1.checked_sub(p2) {
            Some(n) => n,
            None => {
                return None;
            },
        };
        if n < i64::MIN as i128 || n > i64::MAX as i128 {
            return None;
        }
        let d: u128 = (self.den as u128) * (rhs.den as u128);
        if d > u64::MAX as u128 {
            return None;
        }
        Some(Num { num: n as i64, den: d as u64 })
    }

    /// Exact product; `None` exactly when the unreduced result leaves
    /// the machine range.
    pub fn checked_mul(self, rhs: Num) -> (r: Option<Num>)
        ensures
            r is Some <==> rat_fits(rat_mul(self@, rhs@)),
            r matches Some(v) ==> v@ == rat_mul(self@, rhs@),
    {
        proof {
            use_type_invariant(self);
            use_type_invariant(rhs);
            lemma_mul_i64_i64_in_range(self.num as int, rhs.num as int);
            lemma_mul_u64_u64_in_range(self.den as int, rhs.den as int);
        }
        let n: i128 = (self.num as i128) * (rhs.num as i128);
        if n < i64::MIN as i128 || n > i64::MAX as i128 {
            return None;
        }
        let d: u128 = (self.den as u128) * (rhs.den as u128);
        if d > u64::MAX as u128 {
            return None;
        }
        Some(Num { num: n as i64, den: d as u64 })
    }

    /// Exact quotient; `None` exactly when the divisor is zero or the
    /// unreduced result leaves the machine range.
    pub fn checked_div(self, rhs: Num) -> (r: Option<Num>)
        ensures
            r is Some <==> rhs@.n != 0 && rat_fits(rat_div(self@, rhs@)),
            r matches Some(v) ==> v@ == rat_div(self@, rhs@),
    {
        proof {
            use_type_invariant(self);
            use_type_invariant(rhs);
            lemma_mul_i64_u64_in_range(self.num as int, rhs.den as int);
        }
        if rhs.num == 0 {
            return None;
        }
        proof {
            lemma_mul_u64_u64_in_range(self.den as int, vstd::math::abs(rhs.num as int) as int);
        }
        let n0: i128 = (self.num as i128) * (rhs.den as i128);
        let n: i128;
        let dm: u128;
        if rhs.num < 0 {
            n = -n0;
            dm = (self.den as u128) * ((-(rhs.num as i128)) as u128);
        } else {
            n = n0;
            dm = (self.den as u128) * (rhs.num as u128);
        }
        if n < i64::MIN as i128 || n > i64::MAX as i128 {
            return None;
        }
        if dm > u64::MAX as u128 {
            return None;
        }
        Some(Num { num: n as i64, den: dm as u64 })
    }

    /// Exact remainder, with the sign of the dividend; `None` exactly
    /// when the divisor is zero or the unreduced result leaves the
    /// machine range.
    pub fn checked_rem(self, rhs: Num) -> (r: Option<Num>)
        ensures
            r is Some <==> rhs@.n != 0 && rat_fits(rat_mod(self@, rhs@)),
            r matches Some(v) ==> v@ == rat_mod(self@, rhs@),
    {
        proof {
            use_type_invariant(self);
            use_type_invariant(rhs);
            lemma_mul_i64_u64_in_range(self.num as int, rhs.den as int);
            lemma_mul_i64_u64_in_range(rhs.num as int, self.den as int);
            lemma_mul_u64_u64_in_range(self.den as int, rhs.den as int);
        }
        if rhs.num == 0 {
            return None;
        }
        let x: i128 = (self.num as i128) * (rhs.den as i128);
        let y: i128 = (rhs.num as i128) * (self.den as i128);
        proof {
            lemma_mul_nonzero(rhs.num as int, self.den as int);
        }
        let ax: u128 = if x < 0 {
            (-x) as u128
        } else {
            x as u128
        };
        let ay: u128 = if y < 0 {
            (-y) as u128
        } else {
            y as u128
        };
        let rm: u128 = ax % ay;
        let n: i128 = if x < 0 {
            -(rm as i128)
        } else {
            rm as i128
        };
        proof {
            lemma_trunc_mod(x as int, y as int);
        }
        if n < i64::MIN as i128 || n > i64::MAX as i128 {
            return None;
        }
        let d: u128 = (self.den as u128) * (rhs.den as u128);
        if d > u64::MAX as u128 {
            return None;
        }
        Some(Num { num: n as i64, den: d as u64 })
    }

    /// Value equality of the two fractions.
    pub fn value_eq(self, rhs: Num) -> (r: bool)
        ensures
            r == rat_eq(self@, rhs@),
    {
        proof {
            use_type_invariant(self);
            use_type_invariant(rhs);
            lemma_mul_i64_u64_in_range(self.num as int, rhs.den as int);
            lemma_mul_i64_u64_in_range(rhs.num as int, self.den as int);
        }
        (self.num as i128) * (rhs.den as i128) == (rhs.num as i128) * (self.den as i128)
    }

    /// Strict order of the two fractions.
    pub fn value_lt(self, rhs: Num) -> (r: bool)
        ensures
            r == rat_lt(self@, rhs@),
    {
        proof {
            use_type_invariant(self);
            use_type_invariant(rhs);
            lemma_mul_i64_u64_in_range(self.num as int, rhs.den as int);
            lemma_mul_i64_u64_in_range(rhs.num as int, self.den as int);
        }
        (self.num as i128) * (rhs.den as i128) < (rhs.num as i128) * (self.den as i128)
    }

    /// Non-strict order of the two fractions.
    pub fn value_le(self, rhs: Num) -> (r: bool)
        ensures
            r == rat_le(self@, rhs@),
    {
        proof {
            use_type_invariant(self);
            use_type_invariant(rhs);
            lemma_mul_i64_u64_in_range(self.num as int, rhs.den as int);
            lemma_mul_i64_u64_in_range(rhs.num as int, self.den as int);
        }
        (self.num as i128) * (rhs.den as i128) <= (rhs.num as i128) * (self.den as i128)
    }
}

/// Bounds of a product of an `i64` by a `u64`, so that it fits `i128`.
proof fn lemma_mul_i64_u64_in_range(x: int, y: int)
    requires
        i64::MIN <= x <= i64::MAX,
        0 <= y <= u64::MAX,
    ensures
        i64::MIN * u64::MAX <= x * y <= i64::MAX * u64::MAX,
{
    assert(i64::MIN * u64::MAX <= x * y <= i64::MAX * u64::MAX) by (nonlinear_arith)
        requires
            i64::MIN <= x <= i64::MAX,
            0 <= y <= u64::MAX,
    ;
}

/// Bounds of a product of two `i64`s, so that it fits `i128`.
proof fn lemma_mul_i64_i64_in_range(x: int, y: int)
    requires
        i64::MIN <= x <= i64::MAX,
        i64::MIN <= y <= i64::MAX,
    ensures
        i64::MIN * i64::MAX <= x * y <= i64::MIN * i64::MIN,
{
    assert(i64::MIN * i64::MAX <= x * y <= i64::MIN * i64::MIN) by (nonlinear_arith)
        requires
            i64::MIN <= x <= i64::MAX,
            i64::MIN <= y <= i64::MAX,
    ;
}

/// Bounds of a product of two positive `u64`-sized values.
proof fn lemma_mul_u64_u64_in_range(x: int, y: int)
    requires
        1 <= x <= u64::MAX,
        1 <= y <= u64::MAX,
    ensures
        1 <= x * y <= u64::MAX * u64::MAX,
{
    assert(1 <= x * y <= u64::MAX * u64::MAX) by (nonlinear_arith)
        requires
            1 <= x <= u64::MAX,
            1 <= y <= u64::MAX,
    ;
}

/// A product of nonzero factors is nonzero.
proof fn lemma_mul_nonzero(x: int, y: int)
    requires
        x != 0,
        y != 0,
    ensures
        x * y != 0,
{
    assert(x * y != 0) by (nonlinear_arith)
        requires
            x != 0,
            y != 0,
    ;
}

/// The truncated remainder `x - trunc_div(x, y) * y` equals the
/// remainder of the magnitudes, signed like the dividend.
proof fn lemma_trunc_mod(x: int, y: int)
    requires
        y != 0,
    ensures
        x - trunc_div(x, y) * y == if x >= 0 {
            vstd::math::abs(x) as int % vstd::math::abs(y) as int
        } else {
            -(vstd::math::abs(x) as int % vstd::math::abs(y) as int)
        },
{
    let ax = vstd::math::abs(x) as int;
    let ay = vstd::math::abs(y) as int;
    let q = ax / ay;
    vstd::arithmetic::div_mod::lemma_fundamental_div_mod(ax, ay);
    assert(ax == ay * q + ax % ay);
    if x >= 0 {
        if y > 0 {
            assert(trunc_div(x, y) == q);
            assert(q * y == ay * q) by (nonlinear_arith)
                requires
                    y == ay,
            ;
        } else {
            assert(trunc_div(x, y) == -q);
            assert((-q) * y == ay * q) by (nonlinear_arith)
                requires
                    y == -ay,
            ;
        }
    } else {
        if y > 0 {
            assert(trunc_div(x, y) == -q);
            assert((-q) * y == -(ay * q)) by (nonlinear_arith)
                requires
                    y == ay,
            ;
        } else {
            assert(trunc_div(x, y) == q);
            assert(q * y == -(ay * q)) by (nonlinear_arith)
                requires
                    y == -ay,
            ;
        }
    }
}

} // verus!
