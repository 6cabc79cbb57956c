//! Fixed-point decimal numbers.
//!
//! A `Num` holds a sign and a magnitude counted in billionths, so the value
//! `5.5` is stored as magnitude `5_500_000_000`. Addition and subtraction are
//! exact; multiplication and division truncate the result toward zero at the
//! ninth decimal place. Exponentiation is defined for integer exponents as
//! iterated fixed-point multiplication.

use vstd::prelude::*;

verus! {

/// Number of billionths in one: the scale of the fixed-point representation.
pub const SCALE: u128 = 1_000_000_000;

/// Absolute value of a mathematical integer.
pub open spec fn abs_int(a: int) -> int {
    if a >= 0 {
        a
    } else {
        -a
    }
}

/// Division truncating toward zero, the rounding used by fixed-point
/// multiplication and division.
pub open spec fn tdiv(a: int, b: int) -> int
    recommends
        b != 0,
{
    if (a < 0) == (b < 0) {
        abs_int(a) / abs_int(b)
    } else {
        -(abs_int(a) / abs_int(b))
    }
}

/// Product of two fixed-point mantissas: the mathematical product rescaled,
/// truncating toward zero.
pub open spec fn fix_mul(a: int, b: int) -> int {
    tdiv(a * b, SCALE as int)
}

/// Quotient of two fixed-point mantissas, truncating toward zero.
pub open spec fn fix_div(a: int, b: int) -> int
    recommends
        b != 0,
{
    tdiv(a * (SCALE as int), b)
}

/// Integer power of a fixed-point mantissa: iterated fixed-point
/// multiplication starting from one.
pub open spec fn fix_pow(m: int, e: nat) -> int
    decreases e,
{
    if e == 0 {
        SCALE as int
    } else {
        fix_mul(fix_pow(m, (e - 1) as nat), m)
    }
}

/// Whether every intermediate product of `fix_pow(m, e)` stays within the
/// representable magnitude range.
pub open spec fn fix_pow_ok(m: int, e: nat) -> bool
    decreases e,
{
    if e == 0 {
        true
    } else {
        fix_pow_ok(m, (e - 1) as nat) && abs_int(fix_pow(m, (e - 1) as nat)) * abs_int(m)
            <= u128::MAX
    }
}

/// A fixed-point decimal: `mag` billionths, negated when `neg` is set.
/// Zero is always stored with `neg` false, so structural equality coincides
/// with numeric equality on well-formed values.
#[derive(Clone, Copy, PartialEq, Eq, Structural, Debug)]
pub struct Num {
    pub neg: bool,
    pub mag: u128,
}

impl View for Num {
    type V = int;

    open spec fn view(&self) -> int {
        if self.neg {
            -(self.mag as int)
        } else {
            self.mag as int
        }
    }
}

impl Num {
    /// Zero is stored positive, so equal values are structurally equal.
    pub open spec fn wf(&self) -> bool {
        self.mag == 0 ==> !self.neg
    }

    /// The magnitude of the held value, in billionths.
    pub open spec fn spec_mag(&self) -> u128 {
        self.mag
    }

    pub fn zero() -> (r: Num)
        ensures
            r.wf(),
            r@ == 0,
    {
        Num { neg: false, mag: 0 }
    }

    pub fn one() -> (r: Num)
        ensures
            r.wf(),
            r@ == SCALE as int,
    {
        Num { neg: false, mag: SCALE }
    }

    /// The value `mag` billionths; the only way to build a `Num` from a raw
    /// mantissa.
    pub fn from_billionths(mag: u128) -> (r: Num)
        ensures
            r.wf(),
            r@ == mag as int,
    {
        Num { neg: false, mag }
    }

    /// The value `n`, exactly.
    pub fn from_u64(n: u64) -> (r: Num)
        ensures
            r.wf(),
            r@ == n as int * SCALE as int,
    {
        Num { neg: false, mag: (n as u128) * SCALE }
    }

    pub fn is_zero(&self) -> (r: bool)
        requires
            self.wf(),
        ensures
            r == (self@ == 0),
    {
        self.mag == 0
    }

    pub fn is_negative(&self) -> (r: bool)
        ensures
            r == self.neg,
            self.wf() ==> r == (self@ < 0),
    {
        self.neg
    }

    /// The magnitude in billionths, for rendering.
    pub fn magnitude(&self) -> (r: u128)
        ensures
            r == self.spec_mag(),
            self.wf() ==> r as int == abs_int(self@),
    {
        self.mag
    }

    /// Arithmetic negation; negating zero leaves it zero.
    pub fn negated(self) -> (r: Num)
        requires
            self.wf(),
        ensures
            r.wf(),
            r@ == -self@,
    {
        if self.mag == 0 {
            self
        } else {
            Num { neg: !self.neg, mag: self.mag }
        }
    }

    /// Exact sum; `None` exactly when the result magnitude exceeds the
    /// representable range.
    pub fn checked_add(self, other: Num) -> (r: Option<Num>)
        requires
            self.wf(),
            other.wf(),
        ensures
            match r {
                Some(n) => n.wf() && n@ == self@ + other@ && abs_int(self@ + other@)
                    <= u128::MAX,
                None => abs_int(self@ + other@) > u128::MAX,
            },
    {
        if self.neg == other.neg {
            match self.mag.checked_add(other.mag) {
                Some(m) => Some(Num { neg: self.neg && m != 0, mag: m }),
                None => None,
            }
        } else {
            if self.mag >= other.mag {
                let m: u128 = self.mag - other.mag;
                Some(Num { neg: self.neg && m != 0, mag: m })
            } else {
                let m: u128 = other.mag - self.mag;
                Some(Num { neg: other.neg, mag: m })
            }
        }
    }

    /// Exact difference, built from sum and negation.
    pub fn checked_sub(self, other: Num) -> (r: Option<Num>)
        requires
            self.wf(),
            other.wf(),
        ensures
            match r {
                Some(n) => n.wf() && n@ == self@ - other@ && abs_int(self@ - other@)
                    <= u128::MAX,
                None => abs_int(self@ - other@) > u128::MAX,
            },
    {
        self.checked_add(other.negated())
    }

    /// Fixed-point product, truncating toward zero; `None` exactly when the
    /// unscaled magnitude product overflows.
    pub fn checked_mul(self, other: Num) -> (r: Option<Num>)
        requires
            self.wf(),
            other.wf(),
        ensures
            match r {
                Some(n) => n.wf() && n@ == fix_mul(self@, other@) && self.mag * other.mag
                    <= u128::MAX,
                None => self.mag * other.mag > u128::MAX,
            },
    {
        match self.mag.checked_mul(other.mag) {
            Some(p) => {
                let m: u128 = p / SCALE;
                proof {
                    lemma_sign_product(self.neg, other.neg, self.mag as int, other.mag as int);
                }
                Some(Num { neg: (self.neg != other.neg) && m != 0, mag: m })
            },
            None => None,
        }
    }

    /// Fixed-point quotient, truncating toward zero; `None` exactly when
    /// rescaling the dividend overflows.
    pub fn checked_div(self, other: Num) -> (r: Option<Num>)
        requires
            self.wf(),
            other.wf(),
            other@ != 0,
        ensures
            match r {
                Some(n) => n.wf() && n@ == fix_div(self@, other@) && self.mag * SCALE
                    <= u128::MAX,
                None => self.mag * SCALE > u128::MAX,
            },
    {
        match self.mag.checked_mul(SCALE) {
            Some(p) => {
                let m: u128 = p / other.mag;
                proof {
                    lemma_sign_product(self.neg, false, self.mag as int, SCALE as int);
                }
                Some(Num { neg: (self.neg != other.neg) && m != 0, mag: m })
            },
            None => None,
        }
    }

    /// Integer power by iterated fixed-point multiplication; `None` exactly
    /// when an intermediate product overflows.
    pub fn checked_pow(self, e: u128) -> (r: Option<Num>)
        requires
            self.wf(),
        ensures
            match r {
                Some(n) => n.wf() && fix_pow_ok(self@, e as nat) && n@ == fix_pow(self@, e as nat),
                None => !fix_pow_ok(self@, e as nat),
            },
    {
        let mut acc = Num::one();
        let mut i: u128 = 0;
        while i < e
            invariant
                i <= e,
                self.wf(),
                acc.wf(),
                fix_pow_ok(self@, i as nat),
                acc@ == fix_pow(self@, i as nat),
            decreases e - i,
        {
            match acc.checked_mul(self) {
                Some(n) => {
                    acc = n;
                },
                None => {
                    proof {
                        assert(abs_int(fix_pow(self@, i as nat)) == acc.mag);
                        assert(abs_int(self@) == self.mag);
                        assert(!fix_pow_ok(self@, (i + 1) as nat));
                        lemma_fix_pow_ok_monotone(self@, (i + 1) as nat, e as nat);
                    }
                    return None;
                },
            }
            i = i + 1;
        }
        Some(acc)
    }

    /// Whether the value is an exact integer, the condition under which the
    /// power operator accepts it as an exponent.
    pub fn is_integer(&self) -> (r: bool)
        ensures
            r == (self.spec_mag() as int % SCALE as int == 0),
    {
        self.mag % SCALE == 0
    }

    /// The magnitude divided by the scale: the integer the value stands for,
    /// meaningful when `is_integer` holds.
    pub fn integer_magnitude(&self) -> (r: u128)
        ensures
            r == self.spec_mag() as int / SCALE as int,
    {
        self.mag / SCALE
    }

    pub fn le(self, other: Num) -> (r: bool)
        requires
            self.wf(),
            other.wf(),
        ensures
            r == (self@ <= other@),
    {
        if self.neg && !other.neg {
            true
        } else if !self.neg && other.neg {
            false
        } else if !self.neg {
            self.mag <= other.mag
        } else {
            other.mag <= self.mag
        }
    }
}

/// The well-formed `Num` holding a given in-range value.
pub open spec fn spec_num_of_int(v: int) -> Num {
    if v < 0 {
        Num { neg: true, mag: (-v) as u128 }
    } else {
        Num { neg: false, mag: v as u128 }
    }
}

/// A well-formed `Num` is determined by its value.
pub proof fn lemma_num_canonical(n: Num, v: int)
    requires
        n.wf(),
        n@ == v,
    ensures
        n == spec_num_of_int(v),
{
}

/// What `checked_mul` returns, as a function of the operands.
pub open spec fn s_mul(a: Num, b: Num) -> Option<Num> {
    if a.mag * b.mag > u128::MAX {
        None
    } else {
        Some(spec_num_of_int(fix_mul(a@, b@)))
    }
}

/// What `checked_add` returns, as a function of the operands.
pub open spec fn s_add(a: Num, b: Num) -> Option<Num> {
    if abs_int(a@ + b@) > u128::MAX {
        None
    } else {
        Some(spec_num_of_int(a@ + b@))
    }
}

/// What `checked_sub` returns, as a function of the operands.
pub open spec fn s_sub(a: Num, b: Num) -> Option<Num> {
    if abs_int(a@ - b@) > u128::MAX {
        None
    } else {
        Some(spec_num_of_int(a@ - b@))
    }
}

/// What `checked_div` returns, as a function of the operands.
pub open spec fn s_div(a: Num, b: Num) -> Option<Num>
    recommends
        b@ != 0,
{
    if a.mag * SCALE > u128::MAX {
        None
    } else {
        Some(spec_num_of_int(fix_div(a@, b@)))
    }
}

// ---------------------------------------------------------------------------
// Polynomial approximations for the trigonometric builtins
// ---------------------------------------------------------------------------
/// Fixed-point Horner evaluation of a polynomial in `t`, coefficients given
/// from the constant term up; `None` when an intermediate value overflows.
pub open spec fn spec_horner(t: Num, coeffs: Seq<Num>) -> Option<Num>
    decreases coeffs.len(),
{
    if coeffs.len() == 0 {
        Some(Num { neg: false, mag: 0 })
    } else {
        match spec_horner(t, coeffs.drop_first()) {
            None => None,
            Some(h) => match s_mul(t, h) {
                None => None,
                Some(p) => s_add(coeffs[0], p),
            },
        }
    }
}

/// An overflow in a tail of the polynomial is an overflow of the whole.
proof fn lemma_horner_none(t: Num, coeffs: Seq<Num>, i: int)
    requires
        0 <= i <= coeffs.len(),
        spec_horner(t, coeffs.subrange(i, coeffs.len() as int)) is None,
    ensures
        spec_horner(t, coeffs) is None,
    decreases i,
{
    if i == 0 {
        assert(coeffs.subrange(0, coeffs.len() as int) =~= coeffs);
    } else {
        assert(coeffs.subrange(i - 1, coeffs.len() as int).drop_first() =~= coeffs.subrange(
            i,
            coeffs.len() as int,
        ));
        lemma_horner_none(t, coeffs, i - 1);
    }
}

/// Evaluates a polynomial exactly as `spec_horner` describes.
fn horner(t: Num, coeffs: &Vec<Num>) -> (r: Option<Num>)
    requires
        t.wf(),
        forall|i: int| 0 <= i < coeffs@.len() ==> (#[trigger] coeffs@[i]).wf(),
    ensures
        r == spec_horner(t, coeffs@),
        r matches Some(n) ==> n.wf(),
{
    let mut acc = Num::zero();
    let mut i: usize = coeffs.len();
    proof {
        assert(coeffs@.subrange(coeffs@.len() as int, coeffs@.len() as int)
            =~= Seq::<Num>::empty());
    }
    while i > 0
        invariant
            i <= coeffs@.len(),
            t.wf(),
            acc.wf(),
            forall|j: int| 0 <= j < coeffs@.len() ==> (#[trigger] coeffs@[j]).wf(),
            spec_horner(t, coeffs@.subrange(i as int, coeffs@.len() as int)) == Some(acc),
        decreases i,
    {
        i = i - 1;
        proof {
            assert(coeffs@.subrange(i as int, coeffs@.len() as int).drop_first() =~= coeffs@
                .subrange(i + 1, coeffs@.len() as int));
            assert(coeffs@.subrange(i as int, coeffs@.len() as int)[0] == coeffs@[i as int]);
        }
        let p = match t.checked_mul(acc) {
            Some(p) => p,
            None => {
                proof {
                    lemma_num_canonical(t, t@);
                    lemma_horner_none(t, coeffs@, i as int);
                }
                return None;
            },
        };
        proof {
            lemma_num_canonical(p, p@);
        }
        match coeffs[i].checked_add(p) {
            Some(x) => {
                proof {
                    lemma_num_canonical(x, x@);
                }
                acc = x;
            },
            None => {
                proof {
                    lemma_horner_none(t, coeffs@, i as int);
                }
                return None;
            },
        }
    }
    proof {
        assert(coeffs@.subrange(0, coeffs@.len() as int) =~= coeffs@);
    }
    Some(acc)
}

/// A quarter of the circle: half pi, in billionths, truncated.
pub const HALF_PI_BILLIONTHS: u128 = 1570796326;

/// The sine series coefficients in the square of the argument:
/// `1 - t/6 + t^2/120 - t^3/5040`, each rounded toward zero to billionths.
pub open spec fn spec_sin_coeffs() -> Seq<Num> {
    seq![
        Num { neg: false, mag: 1000000000 },
        Num { neg: true, mag: 166666666 },
        Num { neg: false, mag: 8333333 },
        Num { neg: true, mag: 198412 },
    ]
}

/// The cosine series coefficients: `1 - t/2 + t^2/24 - t^3/720`.
pub open spec fn spec_cos_coeffs() -> Seq<Num> {
    seq![
        Num { neg: false, mag: 1000000000 },
        Num { neg: true, mag: 500000000 },
        Num { neg: false, mag: 41666666 },
        Num { neg: true, mag: 1388888 },
    ]
}

/// The arcsine series coefficients: `1 + t/6 + 3 t^2/40 + 15 t^3/336`.
pub open spec fn spec_asin_coeffs() -> Seq<Num> {
    seq![
        Num { neg: false, mag: 1000000000 },
        Num { neg: false, mag: 166666666 },
        Num { neg: false, mag: 75000000 },
        Num { neg: false, mag: 44642857 },
    ]
}

/// The arctangent series coefficients: `1 - t/3 + t^2/5 - t^3/7`.
pub open spec fn spec_atan_coeffs() -> Seq<Num> {
    seq![
        Num { neg: false, mag: 1000000000 },
        Num { neg: true, mag: 333333333 },
        Num { neg: false, mag: 200000000 },
        Num { neg: true, mag: 142857142 },
    ]
}

/// An odd series: the argument times the polynomial in its square.
pub open spec fn spec_odd_series(x: Num, coeffs: Seq<Num>) -> Option<Num> {
    match s_mul(x, x) {
        None => None,
        Some(t) => match spec_horner(t, coeffs) {
            None => None,
            Some(h) => s_mul(x, h),
        },
    }
}

/// The sine approximation: the degree-seven Taylor polynomial in fixed
/// point, the defined numeric behavior of the `sin` builtin.
pub open spec fn spec_sin(x: Num) -> Option<Num> {
    spec_odd_series(x, spec_sin_coeffs())
}

/// The cosine approximation: the degree-six Taylor polynomial in fixed
/// point, the defined numeric behavior of the `cos` builtin.
pub open spec fn spec_cos(x: Num) -> Option<Num> {
    match s_mul(x, x) {
        None => None,
        Some(t) => spec_horner(t, spec_cos_coeffs()),
    }
}

/// The arcsine approximation: the degree-seven series in fixed point, the
/// defined numeric behavior of the `asin` builtin.
pub open spec fn spec_asin(x: Num) -> Option<Num> {
    spec_odd_series(x, spec_asin_coeffs())
}

/// The arccosine approximation: half pi minus the arcsine approximation,
/// the defined numeric behavior of the `acos` builtin.
pub open spec fn spec_acos(x: Num) -> Option<Num> {
    match spec_asin(x) {
        None => None,
        Some(a) => s_sub(Num { neg: false, mag: HALF_PI_BILLIONTHS }, a),
    }
}

/// The arctangent approximation: the degree-seven series in fixed point,
/// the defined numeric behavior of the `atan` builtin.
pub open spec fn spec_atan(x: Num) -> Option<Num> {
    spec_odd_series(x, spec_atan_coeffs())
}

/// Runs one odd series exactly as `spec_odd_series` describes.
fn odd_series(x: Num, coeffs: &Vec<Num>) -> (r: Option<Num>)
    requires
        x.wf(),
        forall|i: int| 0 <= i < coeffs@.len() ==> (#[trigger] coeffs@[i]).wf(),
    ensures
        r == spec_odd_series(x, coeffs@),
        r matches Some(n) ==> n.wf(),
{
    let t = match x.checked_mul(x) {
        Some(t) => t,
        None => {
            return None;
        },
    };
    proof {
        lemma_num_canonical(t, t@);
    }
    let h = match horner(t, coeffs) {
        Some(h) => h,
        None => {
            return None;
        },
    };
    match x.checked_mul(h) {
        Some(n) => {
            proof {
                lemma_num_canonical(n, n@);
            }
            Some(n)
        },
        None => None,
    }
}

fn sin_coeffs() -> (r: Vec<Num>)
    ensures
        r@ == spec_sin_coeffs(),
        forall|i: int| 0 <= i < r@.len() ==> (#[trigger] r@[i]).wf(),
{
    let mut v: Vec<Num> = Vec::new();
    v.push(Num { neg: false, mag: 1000000000 });
    v.push(Num { neg: true, mag: 166666666 });
    v.push(Num { neg: false, mag: 8333333 });
    v.push(Num { neg: true, mag: 198412 });
    proof {
        assert(v@ =~= spec_sin_coeffs());
    }
    v
}

fn cos_coeffs() -> (r: Vec<Num>)
    ensures
        r@ == spec_cos_coeffs(),
        forall|i: int| 0 <= i < r@.len() ==> (#[trigger] r@[i]).wf(),
{
    let mut v: Vec<Num> = Vec::new();
    v.push(Num { neg: false, mag: 1000000000 });
    v.push(Num { neg: true, mag: 500000000 });
    v.push(Num { neg: false, mag: 41666666 });
    v.push(Num { neg: true, mag: 1388888 });
    proof {
        assert(v@ =~= spec_cos_coeffs());
    }
    v
}

fn asin_coeffs() -> (r: Vec<Num>)
    ensures
        r@ == spec_asin_coeffs(),
        forall|i: int| 0 <= i < r@.len() ==> (#[trigger] r@[i]).wf(),
{
    let mut v: Vec<Num> = Vec::new();
    v.push(Num { neg: false, mag: 1000000000 });
    v.push(Num { neg: false, mag: 166666666 });
    v.push(Num { neg: false, mag: 75000000 });
    v.push(Num { neg: false, mag: 44642857 });
    proof {
        assert(v@ =~= spec_asin_coeffs());
    }
    v
}

fn atan_coeffs() -> (r: Vec<Num>)
    ensures
        r@ == spec_atan_coeffs(),
        forall|i: int| 0 <= i < r@.len() ==> (#[trigger] r@[i]).wf(),
{
    let mut v: Vec<Num> = Vec::new();
    v.push(Num { neg: false, mag: 1000000000 });
    v.push(Num { neg: true, mag: 333333333 });
    v.push(Num { neg: false, mag: 200000000 });
    v.push(Num { neg: true, mag: 142857142 });
    proof {
        assert(v@ =~= spec_atan_coeffs());
    }
    v
}

/// The sine approximation, exactly as `spec_sin` describes.
pub fn sin_approx(x: Num) -> (r: Option<Num>)
    requires
        x.wf(),
    ensures
        r == spec_sin(x),
        r matches Some(n) ==> n.wf(),
{
    odd_series(x, &sin_coeffs())
}

/// The cosine approximation, exactly as `spec_cos` describes.
pub fn cos_approx(x: Num) -> (r: Option<Num>)
    requires
        x.wf(),
    ensures
        r == spec_cos(x),
        r matches Some(n) ==> n.wf(),
{
    let t = match x.checked_mul(x) {
        Some(t) => t,
        None => {
            return None;
        },
    };
    proof {
        lemma_num_canonical(t, t@);
    }
    horner(t, &cos_coeffs())
}

/// The arcsine approximation, exactly as `spec_asin` describes.
pub fn asin_approx(x: Num) -> (r: Option<Num>)
    requires
        x.wf(),
    ensures
        r == spec_asin(x),
        r matches Some(n) ==> n.wf(),
{
    odd_series(x, &asin_coeffs())
}

/// The arccosine approximation, exactly as `spec_acos` describes.
pub fn acos_approx(x: Num) -> (r: Option<Num>)
    requires
        x.wf(),
    ensures
        r == spec_acos(x),
        r matches Some(n) ==> n.wf(),
{
    let a = match asin_approx(x) {
        Some(a) => a,
        None => {
            return None;
        },
    };
    let half_pi = Num { neg: false, mag: HALF_PI_BILLIONTHS };
    match half_pi.checked_sub(a) {
        Some(n) => {
            proof {
                lemma_num_canonical(n, n@);
            }
            Some(n)
        },
        None => None,
    }
}

/// The arctangent approximation, exactly as `spec_atan` describes.
pub fn atan_approx(x: Num) -> (r: Option<Num>)
    requires
        x.wf(),
    ensures
        r == spec_atan(x),
        r matches Some(n) ==> n.wf(),
{
    odd_series(x, &atan_coeffs())
}

/// Signed product of two magnitudes: flipping one factor's sign flips the
/// product's sign, the fact the multiplication and division proofs need.
proof fn lemma_sign_product(na: bool, nb: bool, a: int, b: int)
    requires
        a >= 0,
        b >= 0,
    ensures
        (if na {
            -a
        } else {
            a
        }) * (if nb {
            -b
        } else {
            b
        }) == if na == nb {
            a * b
        } else {
            -(a * b)
        },
{
    assert((-a) * b == -(a * b)) by (nonlinear_arith);
    assert(a * (-b) == -(a * b)) by (nonlinear_arith);
    assert((-a) * (-b) == a * b) by (nonlinear_arith);
}

/// If every intermediate power up to `e` fits, so does every shorter prefix.
proof fn lemma_fix_pow_ok_monotone(m: int, i: nat, e: nat)
    requires
        i <= e,
        !fix_pow_ok(m, i),
    ensures
        !fix_pow_ok(m, e),
    decreases e,
{
    if e > i {
        lemma_fix_pow_ok_monotone(m, i, (e - 1) as nat);
    }
}

} // verus!
