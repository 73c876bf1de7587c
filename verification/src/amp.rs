//! Exact amplitude arithmetic.
//!
//! Every amplitude that this interpreter can produce lies in the ring of numbers
//! `(a + b·w + c·w² + d·w³) / √2^k` with integer coefficients, where
//! `w = exp(iπ/4)` is the eighth root of unity: the Hadamard weight is
//! `±1/√2`, the T-gate phase is `w`, and CNOT uses `1`.  Because `w⁴ == -1`
//! and `w - w³ == √2`, this set is closed under addition and multiplication,
//! so the interpreter tracks amplitudes exactly instead of with floating
//! point.  The coefficients `1, w, w², w³` are linearly independent over the
//! rationals, so a represented value is zero exactly when all four
//! coefficients are zero.

use vstd::prelude::*;

verus! {

/// An amplitude `(a + b·w + c·w² + d·w³) / √2^k` with machine-sized
/// coefficients.
#[derive(Debug, Clone, Copy, PartialEq, Eq)]
pub struct Amp {
    pub a: i64,
    pub b: i64,
    pub c: i64,
    pub d: i64,
    pub k: u32,
}

/// The mathematical model of an amplitude, with unbounded coefficients.
pub ghost struct AmpX {
    pub a: int,
    pub b: int,
    pub c: int,
    pub d: int,
    pub k: nat,
}

impl View for Amp {
    type V = AmpX;

    open spec fn view(&self) -> AmpX {
        AmpX { a: self.a as int, b: self.b as int, c: self.c as int, d: self.d as int, k: self.k as nat }
    }
}

/// Multiplies the numerator by `√2 == w - w³` and raises the denominator
/// exponent to match: the represented value is unchanged.
pub open spec fn amp_sqrt2_step(x: AmpX) -> AmpX {
    AmpX { a: x.b - x.d, b: x.a + x.c, c: x.b + x.d, d: x.c - x.a, k: (x.k + 1) as nat }
}

/// Applies `amp_sqrt2_step` n times, raising the denominator exponent by n.
pub open spec fn amp_lift(x: AmpX, n: nat) -> AmpX
    decreases n,
{
    if n == 0 {
        x
    } else {
        amp_lift(amp_sqrt2_step(x), (n - 1) as nat)
    }
}

/// The sum of two amplitudes: both are brought to the larger denominator
/// exponent, then the coefficients add.
pub open spec fn amp_add(x: AmpX, y: AmpX) -> AmpX {
    let kk = if x.k >= y.k {
        x.k
    } else {
        y.k
    };
    let xl = amp_lift(x, (kk - x.k) as nat);
    let yl = amp_lift(y, (kk - y.k) as nat);
    AmpX { a: xl.a + yl.a, b: xl.b + yl.b, c: xl.c + yl.c, d: xl.d + yl.d, k: kk }
}

/// The product of two amplitudes: polynomial multiplication of the
/// numerators reduced by `w⁴ == -1`, denominator exponents added.
pub open spec fn amp_mul(x: AmpX, y: AmpX) -> AmpX {
    AmpX {
        a: x.a * y.a - x.b * y.d - x.c * y.c - x.d * y.b,
        b: x.a * y.b + x.b * y.a - x.c * y.d - x.d * y.c,
        c: x.a * y.c + x.b * y.b + x.c * y.a - x.d * y.d,
        d: x.a * y.d + x.b * y.c + x.c * y.b + x.d * y.a,
        k: (x.k + y.k) as nat,
    }
}

/// Whether the represented value is zero: since `1, w, w², w³` are linearly
/// independent over the rationals, that is exactly when every coefficient is
/// zero.
pub open spec fn amp_is_zero(x: AmpX) -> bool {
    x.a == 0 && x.b == 0 && x.c == 0 && x.d == 0
}

/// The rational part of `|x|²·2^k`: with `n = a + b·w + c·w² + d·w³`,
/// `n·conj(n) == norm_a + norm_b·√2`.
pub open spec fn norm_a(x: AmpX) -> int {
    x.a * x.a + x.b * x.b + x.c * x.c + x.d * x.d
}

/// The `√2` part of `|x|²·2^k`.
pub open spec fn norm_b(x: AmpX) -> int {
    x.a * x.b + x.b * x.c + x.c * x.d - x.a * x.d
}

/// Whether an integer lies in the range of the coefficient type.
pub open spec fn fits_i64(v: int) -> bool {
    i64::MIN <= v <= i64::MAX
}

/// Whether every coefficient of the amplitude fits the coefficient type.
pub open spec fn amp_fits(x: AmpX) -> bool {
    fits_i64(x.a) && fits_i64(x.b) && fits_i64(x.c) && fits_i64(x.d) && x.k <= u32::MAX
}

/// Whether `n` lifting steps stay within the coefficient type.
pub open spec fn lift_ok(x: AmpX, n: nat) -> bool
    decreases n,
{
    if n == 0 {
        true
    } else {
        amp_fits(amp_sqrt2_step(x)) && lift_ok(amp_sqrt2_step(x), (n - 1) as nat)
    }
}

/// Whether the sum of two amplitudes can be computed within the coefficient
/// type: the lifting of each to the common exponent stays in range, and so do
/// the four coefficient sums.
pub open spec fn amp_add_ok(x: AmpX, y: AmpX) -> bool {
    let kk = if x.k >= y.k {
        x.k
    } else {
        y.k
    };
    lift_ok(x, (kk - x.k) as nat) && lift_ok(y, (kk - y.k) as nat) && amp_fits(amp_add(x, y))
}

/// The coefficient bound under which products and their four-fold sums stay
/// exactly computable in the machine arithmetic used here.
pub open spec fn small_coeffs(x: AmpX) -> bool {
    -0x8000_0000 <= x.a <= 0x8000_0000 && -0x8000_0000 <= x.b <= 0x8000_0000
        && -0x8000_0000 <= x.c <= 0x8000_0000 && -0x8000_0000 <= x.d <= 0x8000_0000
}

/// Whether the product of two amplitudes can be computed here: both factors
/// have small coefficients, the result fits the coefficient type, and the
/// denominator exponents can be added.
pub open spec fn amp_mul_ok(x: AmpX, y: AmpX) -> bool {
    small_coeffs(x) && small_coeffs(y) && amp_fits(amp_mul(x, y)) && x.k + y.k <= u32::MAX
}

impl Amp {
    /// The amplitude 1.
    pub fn one() -> (r: Amp)
        ensures
            r@ == (AmpX { a: 1, b: 0, c: 0, d: 0, k: 0 }),
    {
        Amp { a: 1, b: 0, c: 0, d: 0, k: 0 }
    }

    /// The Hadamard weight `1/√2`, negated on request.
    pub fn sqrt_half(neg: bool) -> (r: Amp)
        ensures
            r@ == (AmpX { a: if neg { -1int } else { 1int }, b: 0, c: 0, d: 0, k: 1 }),
    {
        Amp { a: if neg { -1 } else { 1 }, b: 0, c: 0, d: 0, k: 1 }
    }

    /// The T-gate phase `w == exp(iπ/4)`.
    pub fn omega() -> (r: Amp)
        ensures
            r@ == (AmpX { a: 0, b: 1, c: 0, d: 0, k: 0 }),
    {
        Amp { a: 0, b: 1, c: 0, d: 0, k: 0 }
    }

    /// Whether this amplitude is exactly zero.
    pub fn is_zero(&self) -> (r: bool)
        ensures
            r == amp_is_zero(self@),
    {
        self.a == 0 && self.b == 0 && self.c == 0 && self.d == 0
    }

    /// One lifting step, within the coefficient type.
    fn sqrt2_step(self) -> (r: Option<Amp>)
        ensures
            match r {
                Some(v) => v@ == amp_sqrt2_step(self@) && amp_fits(amp_sqrt2_step(self@))
                    && self@.k + 1 <= u32::MAX,
                None => !(amp_fits(amp_sqrt2_step(self@)) && self@.k + 1 <= u32::MAX),
            },
    {
        if self.k == u32::MAX {
            return None;
        }
        match (self.b.checked_sub(self.d), self.a.checked_add(self.c), self.b.checked_add(self.d), self.c.checked_sub(self.a)) {
            (Some(a2), Some(b2), Some(c2), Some(d2)) => Some(
                Amp { a: a2, b: b2, c: c2, d: d2, k: self.k + 1 },
            ),
            _ => None,
        }
    }

    /// Lifts this amplitude by `n` steps.
    fn lift(self, n: u32) -> (r: Option<Amp>)
        requires
            self@.k + n <= u32::MAX,
        ensures
            match r {
                Some(v) => v@ == amp_lift(self@, n as nat) && lift_ok(self@, n as nat),
                None => !lift_ok(self@, n as nat),
            },
        decreases n,
    {
        if n == 0 {
            Some(self)
        } else {
            match self.sqrt2_step() {
                Some(stepped) => stepped.lift(n - 1),
                None => None,
            }
        }
    }

    /// Adds two amplitudes; `None` when the exact result cannot be held in
    /// the coefficient type.
    pub fn add(self, other: Amp) -> (r: Option<Amp>)
        ensures
            match r {
                Some(v) => v@ == amp_add(self@, other@) && amp_add_ok(self@, other@),
                None => !amp_add_ok(self@, other@),
            },
    {
        let kk = if self.k >= other.k {
            self.k
        } else {
            other.k
        };
        let xl = match self.lift(kk - self.k) {
            Some(v) => v,
            None => {
                return None;
            },
        };
        let yl = match other.lift(kk - other.k) {
            Some(v) => v,
            None => {
                return None;
            },
        };
        match (xl.a.checked_add(yl.a), xl.b.checked_add(yl.b), xl.c.checked_add(yl.c), xl.d.checked_add(yl.d)) {
            (Some(a2), Some(b2), Some(c2), Some(d2)) => {
                proof {
                    lemma_lift_keeps_k(self@, (kk as nat - self@.k) as nat);
                    lemma_lift_keeps_k(other@, (kk as nat - other@.k) as nat);
                }
                Some(Amp { a: a2, b: b2, c: c2, d: d2, k: kk })
            },
            _ => None,
        }
    }

    /// Multiplies two amplitudes; `None` when the factors are too large to
    /// multiply exactly here or the result cannot be held.
    pub fn mul(self, other: Amp) -> (r: Option<Amp>)
        ensures
            match r {
                Some(v) => v@ == amp_mul(self@, other@) && amp_mul_ok(self@, other@),
                None => !amp_mul_ok(self@, other@),
            },
    {
        let bound: i64 = 0x8000_0000;
        if self.a < -bound || self.a > bound || self.b < -bound || self.b > bound || self.c
            < -bound || self.c > bound || self.d < -bound || self.d > bound {
            return None;
        }
        if other.a < -bound || other.a > bound || other.b < -bound || other.b > bound || other.c
            < -bound || other.c > bound || other.d < -bound || other.d > bound {
            return None;
        }
        let kk = match self.k.checked_add(other.k) {
            Some(v) => v,
            None => {
                return None;
            },
        };
        let (xa, xb, xc, xd) = (self.a as i128, self.b as i128, self.c as i128, self.d as i128);
        let (ya, yb, yc, yd) = (other.a as i128, other.b as i128, other.c as i128, other.d as i128);
        proof {
            lemma_small_mul(xa as int, ya as int);
            lemma_small_mul(xa as int, yb as int);
            lemma_small_mul(xa as int, yc as int);
            lemma_small_mul(xa as int, yd as int);
            lemma_small_mul(xb as int, ya as int);
            lemma_small_mul(xb as int, yb as int);
            lemma_small_mul(xb as int, yc as int);
            lemma_small_mul(xb as int, yd as int);
            lemma_small_mul(xc as int, ya as int);
            lemma_small_mul(xc as int, yb as int);
            lemma_small_mul(xc as int, yc as int);
            lemma_small_mul(xc as int, yd as int);
            lemma_small_mul(xd as int, ya as int);
            lemma_small_mul(xd as int, yb as int);
            lemma_small_mul(xd as int, yc as int);
            lemma_small_mul(xd as int, yd as int);
        }
        let ra = xa * ya - xb * yd - xc * yc - xd * yb;
        let rb = xa * yb + xb * ya - xc * yd - xd * yc;
        let rc = xa * yc + xb * yb + xc * ya - xd * yd;
        let rd = xa * yd + xb * yc + xc * yb + xd * ya;
        let lo = i64::MIN as i128;
        let hi = i64::MAX as i128;
        if lo <= ra && ra <= hi && lo <= rb && rb <= hi && lo <= rc && rc <= hi && lo <= rd && rd
            <= hi {
            Some(Amp { a: ra as i64, b: rb as i64, c: rc as i64, d: rd as i64, k: kk })
        } else {
            None
        }
    }
}

/// Whether the representation can be divided by two: the denominator
/// exponent admits a whole factor `√2² == 2` and every coefficient is even.
pub open spec fn amp_reducible(x: AmpX) -> bool {
    x.k >= 2 && x.a % 2 == 0 && x.b % 2 == 0 && x.c % 2 == 0 && x.d % 2 == 0
}

/// Halves the coefficients and lowers the denominator exponent by two; for
/// a reducible amplitude the represented value is unchanged.
pub open spec fn amp_half(x: AmpX) -> AmpX {
    AmpX { a: x.a / 2, b: x.b / 2, c: x.c / 2, d: x.d / 2, k: (x.k - 2) as nat }
}

/// The canonical form of an amplitude: halved as long as every coefficient
/// is even and the exponent allows it.
pub open spec fn amp_reduced(x: AmpX) -> AmpX
    decreases x.k,
{
    if amp_reducible(x) {
        amp_reduced(amp_half(x))
    } else {
        x
    }
}

/// Reduction is a projection: a reduced amplitude reduces to itself.
pub proof fn lemma_reduced_fixpoint(x: AmpX)
    ensures
        amp_reduced(amp_reduced(x)) == amp_reduced(x),
    decreases x.k,
{
    if amp_reducible(x) {
        lemma_reduced_fixpoint(amp_half(x));
    }
}

impl Amp {
    /// Puts this amplitude in canonical form.
    pub fn reduce(self) -> (r: Amp)
        ensures
            r@ == amp_reduced(self@),
    {
        let mut cur = self;
        while cur.k >= 2 && cur.a % 2 == 0 && cur.b % 2 == 0 && cur.c % 2 == 0 && cur.d % 2 == 0
            invariant
                amp_reduced(cur@) == amp_reduced(self@),
            decreases cur@.k,
        {
            let next = Amp {
                a: cur.a / 2,
                b: cur.b / 2,
                c: cur.c / 2,
                d: cur.d / 2,
                k: cur.k - 2,
            };
            proof {
                assert(next@ == amp_half(cur@));
            }
            cur = next;
        }
        cur
    }
}

/// A product of two factors below `2^31` in magnitude stays below `2^62`.
proof fn lemma_small_mul(x: int, y: int)
    requires
        -0x8000_0000 <= x <= 0x8000_0000,
        -0x8000_0000 <= y <= 0x8000_0000,
    ensures
        -0x4000_0000_0000_0000 <= x * y <= 0x4000_0000_0000_0000,
{
    assert(-0x4000_0000_0000_0000 <= x * y <= 0x4000_0000_0000_0000) by (nonlinear_arith)
        requires
            -0x8000_0000 <= x <= 0x8000_0000,
            -0x8000_0000 <= y <= 0x8000_0000,
    ;
}

/// Lifting by `n` raises the denominator exponent by exactly `n`.
pub proof fn lemma_lift_keeps_k(x: AmpX, n: nat)
    ensures
        amp_lift(x, n).k == x.k + n,
    decreases n,
{
    if n > 0 {
        lemma_lift_keeps_k(amp_sqrt2_step(x), (n - 1) as nat);
    }
}

} // verus!
