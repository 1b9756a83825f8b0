//! Complex numbers whose parts are exact integers, with every operation
//! expressed through `BigInt` arithmetic.
use crate::big_int::BigInt;
use crate::theory::{abs, int_to_decimal, trunc_div, trunc_rem};
use vstd::arithmetic::div_mod::lemma_fundamental_div_mod;
use vstd::prelude::*;
use vstd::string::StringExecFns;

verus! {

/// The sum of two complex values given as (real, imaginary) pairs.
pub open spec fn c_add(a: (int, int), b: (int, int)) -> (int, int) {
    (a.0 + b.0, a.1 + b.1)
}

/// The difference of two complex values.
pub open spec fn c_sub(a: (int, int), b: (int, int)) -> (int, int) {
    (a.0 - b.0, a.1 - b.1)
}

/// `(a + bi)(c + di) = (ac - bd) + (ad + bc)i`.
pub open spec fn c_mul(a: (int, int), b: (int, int)) -> (int, int) {
    (a.0 * b.0 - a.1 * b.1, a.0 * b.1 + a.1 * b.0)
}

/// The negation.
pub open spec fn c_neg(a: (int, int)) -> (int, int) {
    (-a.0, -a.1)
}

/// The complex conjugate.
pub open spec fn conj(a: (int, int)) -> (int, int) {
    (a.0, -a.1)
}

/// The squared magnitude `re^2 + im^2`.
pub open spec fn norm(a: (int, int)) -> int {
    a.0 * a.0 + a.1 * a.1
}

/// Division through the conjugate: both parts of `a * conj(b)` divided by
/// `norm(b)`, rounding toward zero.
pub open spec fn c_div(a: (int, int), b: (int, int)) -> (int, int) {
    (trunc_div(a.0 * b.0 + a.1 * b.1, norm(b)), trunc_div(a.1 * b.0 - a.0 * b.1, norm(b)))
}

/// `z^n` by repeated multiplication, with `z^0 == 1`.
pub open spec fn c_pow(z: (int, int), n: nat) -> (int, int)
    decreases n,
{
    if n == 0 {
        (1, 0)
    } else {
        c_mul(c_pow(z, (n - 1) as nat), z)
    }
}

/// Multiplication by `i`.
pub open spec fn rot90(z: (int, int)) -> (int, int) {
    (-z.1, z.0)
}

/// Multiplication by `-1`.
pub open spec fn rot180(z: (int, int)) -> (int, int) {
    (-z.0, -z.1)
}

/// Multiplication by `-i`.
pub open spec fn rot270(z: (int, int)) -> (int, int) {
    (z.1, -z.0)
}

/// The quadrant code of a non-zero value from whether each part is positive:
/// `(+,+) -> 0`, `(-,+) -> 1`, `(-,-) -> 2`, `(+,-) -> 3`, where a zero part
/// counts as not positive.
pub open spec fn quadrant(z: (int, int)) -> int {
    if z.0 > 0 && z.1 > 0 {
        0
    } else if z.1 > 0 {
        1
    } else if z.0 <= 0 {
        2
    } else {
        3
    }
}

/// `r` turned by `theta` quarter turns, `theta` taken modulo four.
pub open spec fn polar(r: int, theta: int) -> (int, int) {
    if theta % 4 == 0 {
        (r, 0)
    } else if theta % 4 == 1 {
        (0, r)
    } else if theta % 4 == 2 {
        (-r, 0)
    } else {
        (0, -r)
    }
}

/// `n` is the square of some integer.
pub open spec fn is_perfect_square(n: int) -> bool {
    exists|s: int| s >= 0 && #[trigger] (s * s) == n
}

/// The non-negative square root of a perfect square.
pub open spec fn exact_root(n: int) -> int {
    choose|s: int| s >= 0 && #[trigger] (s * s) == n
}

/// The roots `nth_root` gives: none for `n == 0`, zero for zero, the value
/// itself for `n == 1`, both square roots of a real perfect square (on the
/// imaginary axis for a negative one), and otherwise the placeholder `1`,
/// which is in general no root at all.
pub open spec fn nth_root_list(z: (int, int), n: nat) -> Seq<(int, int)> {
    if n == 0 {
        seq![]
    } else if z == (0int, 0int) {
        seq![(0int, 0int)]
    } else if n == 1 {
        seq![z]
    } else if n == 2 && z.1 == 0 && z.0 > 0 && is_perfect_square(z.0) {
        seq![(exact_root(z.0), 0int), (-exact_root(z.0), 0int)]
    } else if n == 2 && z.1 == 0 && z.0 < 0 && is_perfect_square(-z.0) {
        seq![(0int, exact_root(-z.0)), (0int, -exact_root(-z.0))]
    } else {
        seq![(1int, 0int)]
    }
}

/// How many halvings, rounding down, bring `n` to at most one: the floor of
/// the base-two logarithm.
pub open spec fn halvings(n: nat) -> nat
    decreases n,
{
    if n <= 1 {
        0
    } else {
        1 + halvings(n / 2)
    }
}

/// What `ln_approx` gives for a non-zero value: `halvings` of a positive real,
/// the placeholder `i` for anything else.
pub open spec fn ln_value(z: (int, int)) -> (int, int) {
    if z.1 == 0 && z.0 > 0 {
        (halvings(z.0 as nat) as int, 0)
    } else {
        (0, 1)
    }
}

/// The truncated series for `exp(z)` from term `k` on: each term is the
/// previous one times `z`, divided by `k`, added to the sum; the series stops
/// after the tenth term or after a term of squared magnitude below one.
pub open spec fn exp_series(z: (int, int), k: nat, term: (int, int), sum: (int, int)) -> (int, int)
    decreases 11 - k,
{
    if k > 10 {
        sum
    } else {
        let t = c_div(c_mul(term, z), (k as int, 0int));
        let s = c_add(sum, t);
        if norm(t) < 1 {
            s
        } else {
            exp_series(z, k + 1, t, s)
        }
    }
}

/// What `exp_approx` gives: one for zero, the series for a real value, the
/// placeholder `1 + i` for anything else.
pub open spec fn exp_value(z: (int, int)) -> (int, int) {
    if z == (0int, 0int) {
        (1, 0)
    } else if z.1 == 0 {
        exp_series(z, 1, (1, 0), (1, 0))
    } else {
        (1, 1)
    }
}

/// The text of a complex value: `"0"` for zero, the real part alone when the
/// imaginary part is zero, `"i"`, `"-i"` or `"{im}i"` on the imaginary axis,
/// and `"{re}+{im}i"` or `"{re}{im}i"` otherwise.
pub open spec fn complex_text(z: (int, int)) -> Seq<char> {
    if z.1 == 0 {
        int_to_decimal(z.0)
    } else if z.0 == 0 {
        if z.1 == 1 {
            seq!['i']
        } else if z.1 == -1 {
            seq!['-', 'i']
        } else {
            int_to_decimal(z.1) + seq!['i']
        }
    } else if z.1 > 0 {
        int_to_decimal(z.0) + seq!['+'] + int_to_decimal(z.1) + seq!['i']
    } else {
        int_to_decimal(z.0) + int_to_decimal(z.1) + seq!['i']
    }
}

/// Complex multiplication is associative.
pub proof fn lemma_c_mul_assoc(a: (int, int), b: (int, int), c: (int, int))
    ensures
        c_mul(c_mul(a, b), c) == c_mul(a, c_mul(b, c)),
{
    let (a0, a1, b0, b1, c0, c1) = (a.0, a.1, b.0, b.1, c.0, c.1);
    assert((a0 * b0 - a1 * b1) * c0 == a0 * b0 * c0 - a1 * b1 * c0) by (nonlinear_arith);
    assert((a0 * b1 + a1 * b0) * c1 == a0 * b1 * c1 + a1 * b0 * c1) by (nonlinear_arith);
    assert((a0 * b0 - a1 * b1) * c1 == a0 * b0 * c1 - a1 * b1 * c1) by (nonlinear_arith);
    assert((a0 * b1 + a1 * b0) * c0 == a0 * b1 * c0 + a1 * b0 * c0) by (nonlinear_arith);
    assert(a0 * (b0 * c0 - b1 * c1) == a0 * b0 * c0 - a0 * b1 * c1) by (nonlinear_arith);
    assert(a1 * (b0 * c1 + b1 * c0) == a1 * b0 * c1 + a1 * b1 * c0) by (nonlinear_arith);
    assert(a0 * (b0 * c1 + b1 * c0) == a0 * b0 * c1 + a0 * b1 * c0) by (nonlinear_arith);
    assert(a1 * (b0 * c0 - b1 * c1) == a1 * b0 * c0 - a1 * b1 * c1) by (nonlinear_arith);
}

/// `z^a * z^b == z^(a + b)`.
pub proof fn lemma_c_pow_add(z: (int, int), a: nat, b: nat)
    ensures
        c_mul(c_pow(z, a), c_pow(z, b)) == c_pow(z, a + b),
    decreases b,
{
    if b == 0 {
        let x = c_pow(z, a);
        assert(c_mul(x, (1, 0)) == x) by {
            assert(x.0 * 1 - x.1 * 0 == x.0 && x.0 * 0 + x.1 * 1 == x.1) by (nonlinear_arith);
        }
    } else {
        lemma_c_pow_add(z, a, (b - 1) as nat);
        lemma_c_mul_assoc(c_pow(z, a), c_pow(z, (b - 1) as nat), z);
        assert(a + b - 1 == a + (b - 1));
    }
}

/// Why a complex operation has no result.
#[derive(Clone, Copy, Debug, PartialEq, Eq, Structural)]
pub enum ComplexError {
    /// The divisor is the zero complex value.
    DivisionByZero,
}

/// A complex value `re + im * i` with exact integer parts. Its value is
/// the pair `self@`.
#[derive(Debug)]
pub struct BigComplex {
    re: BigInt,
    im: BigInt,
}

impl View for BigComplex {
    type V = (int, int);

    closed spec fn view(&self) -> (int, int) {
        (self.re@, self.im@)
    }
}

impl BigComplex {
    /// The value `re + im * i`.
    pub fn new(re: BigInt, im: BigInt) -> (r: BigComplex)
        ensures
            r@ == (re@, im@),
    {
        BigComplex { re, im }
    }

    /// The value `re + im * i` from native integers.
    pub fn from_i64(re: i64, im: i64) -> (r: BigComplex)
        ensures
            r@ == (re as int, im as int),
    {
        BigComplex { re: BigInt::new(re), im: BigInt::new(im) }
    }

    /// Zero.
    pub fn zero() -> (r: BigComplex)
        ensures
            r@ == (0int, 0int),
    {
        BigComplex::from_i64(0, 0)
    }

    /// One.
    pub fn one() -> (r: BigComplex)
        ensures
            r@ == (1int, 0int),
    {
        BigComplex::from_i64(1, 0)
    }

    /// The re part.
    pub fn real_part(&self) -> (r: &BigInt)
        ensures
            r@ == self@.0,
    {
        &self.re
    }

    /// The imaginary part.
    pub fn imag(&self) -> (r: &BigInt)
        ensures
            r@ == self@.1,
    {
        &self.im
    }

    /// Both parts zero.
    pub fn is_zero(&self) -> (r: bool)
        ensures
            r == (self@ == (0int, 0int)),
    {
        self.re.is_zero() && self.im.is_zero()
    }

    /// The imaginary part is zero.
    pub fn is_real(&self) -> (r: bool)
        ensures
            r == (self@.1 == 0),
    {
        self.im.is_zero()
    }

    /// The re part is zero.
    pub fn is_imaginary(&self) -> (r: bool)
        ensures
            r == (self@.0 == 0),
    {
        self.re.is_zero()
    }

    /// The sum.
    pub fn add(&self, other: &BigComplex) -> (r: BigComplex)
        ensures
            r@ == c_add(self@, other@),
    {
        BigComplex { re: self.re.add(&other.re), im: self.im.add(&other.im) }
    }

    /// The difference.
    pub fn sub(&self, other: &BigComplex) -> (r: BigComplex)
        ensures
            r@ == c_sub(self@, other@),
    {
        BigComplex { re: self.re.sub(&other.re), im: self.im.sub(&other.im) }
    }

    /// The product.
    pub fn mul(&self, other: &BigComplex) -> (r: BigComplex)
        ensures
            r@ == c_mul(self@, other@),
    {
        let re = self.re.mul(&other.re).sub(&self.im.mul(&other.im));
        let im = self.re.mul(&other.im).add(&self.im.mul(&other.re));
        BigComplex { re, im }
    }

    /// The negation.
    pub fn neg(&self) -> (r: BigComplex)
        ensures
            r@ == c_neg(self@),
    {
        BigComplex { re: self.re.neg(), im: self.im.neg() }
    }

    /// The quotient by a non-zero value, as `c_div` rounds it.
    fn quotient(&self, other: &BigComplex) -> (r: BigComplex)
        requires
            other@ != (0int, 0int),
        ensures
            r@ == c_div(self@, other@),
    {
        let denominator = other.re.mul(&other.re).add(&other.im.mul(&other.im));
        proof {
            let (c, d) = other@;
            assert(c * c + d * d > 0) by (nonlinear_arith)
                requires
                    c != 0 || d != 0,
            ;
        }
        let re = self.re.mul(&other.re).add(&self.im.mul(&other.im)).div(&denominator);
        let im = self.im.mul(&other.re).sub(&self.re.mul(&other.im)).div(&denominator);
        BigComplex { re, im }
    }

    /// The quotient through the conjugate, each part rounded toward zero, so
    /// generally lossy; dividing by zero is an error.
    pub fn div(&self, other: &BigComplex) -> (r: Result<BigComplex, ComplexError>)
        ensures
            r is Err <==> other@ == (0int, 0int),
            r matches Ok(q) ==> q@ == c_div(self@, other@),
            r matches Err(e) ==> e == ComplexError::DivisionByZero,
    {
        if other.is_zero() {
            Err(ComplexError::DivisionByZero)
        } else {
            Ok(self.quotient(other))
        }
    }

    /// The complex conjugate.
    pub fn conjugate(&self) -> (r: BigComplex)
        ensures
            r@ == conj(self@),
    {
        BigComplex { re: self.re.clone(), im: self.im.neg() }
    }

    /// `re^2 + im^2`, exactly.
    pub fn magnitude_squared(&self) -> (r: BigInt)
        ensures
            r@ == norm(self@),
    {
        self.re.mul(&self.re).add(&self.im.mul(&self.im))
    }

    /// The same as `magnitude_squared`.
    pub fn norm(&self) -> (r: BigInt)
        ensures
            r@ == norm(self@),
    {
        self.magnitude_squared()
    }

    /// Both parts multiplied by `factor`.
    pub fn scale(&self, factor: &BigInt) -> (r: BigComplex)
        ensures
            r@ == (self@.0 * factor@, self@.1 * factor@),
    {
        BigComplex { re: self.re.mul(factor), im: self.im.mul(factor) }
    }

    /// `re` added to the re part.
    pub fn add_real(&self, re: &BigInt) -> (r: BigComplex)
        ensures
            r@ == (self@.0 + re@, self@.1),
    {
        BigComplex { re: self.re.add(re), im: self.im.clone() }
    }

    /// `im` added to the imaginary part.
    pub fn add_imag(&self, im: &BigInt) -> (r: BigComplex)
        ensures
            r@ == (self@.0, self@.1 + im@),
    {
        BigComplex { re: self.re.clone(), im: self.im.add(im) }
    }

    /// Both parts divided by `divisor`, only when both divide evenly; `None`
    /// otherwise, and for a zero divisor.
    pub fn div_exact(&self, divisor: &BigInt) -> (r: Option<BigComplex>)
        ensures
            r is Some <==> divisor@ != 0 && trunc_rem(self@.0, divisor@) == 0 && trunc_rem(
                self@.1,
                divisor@,
            ) == 0,
            r matches Some(q) ==> q@ == (trunc_div(self@.0, divisor@), trunc_div(
                self@.1,
                divisor@,
            )),
    {
        if divisor.is_zero() {
            return None;
        }
        let real_rem = self.re.rem(divisor);
        let imag_rem = self.im.rem(divisor);
        if !real_rem.is_zero() || !imag_rem.is_zero() {
            return None;
        }
        Some(BigComplex { re: self.re.div(divisor), im: self.im.div(divisor) })
    }

    /// `|self - other|^2`.
    pub fn distance_to(&self, other: &BigComplex) -> (r: BigInt)
        ensures
            r@ == norm(c_sub(self@, other@)),
    {
        let diff = self.sub(other);
        diff.magnitude_squared()
    }

    /// The floor of the square root of the squared magnitude.
    pub fn magnitude(&self) -> (r: BigInt)
        ensures
            r@ >= 0,
            r@ * r@ <= norm(self@) < (r@ + 1) * (r@ + 1),
    {
        let squared = self.magnitude_squared();
        proof {
            let (a, b) = self@;
            assert(a * a + b * b >= 0) by (nonlinear_arith);
        }
        match squared.sqrt() {
            Some(root) => root,
            None => BigInt::zero(),
        }
    }

    /// `r` at one of the four axis angles: `theta` counts quarter turns and is
    /// taken modulo four, so `-1` is three quarter turns.
    pub fn from_polar(r: &BigInt, theta: i32) -> (z: BigComplex)
        ensures
            z@ == polar(r@, theta as int),
    {
        let quarter: i32 = match theta.checked_rem_euclid(4) {
            Some(q) => q,
            None => 0,
        };
        if quarter == 0 {
            BigComplex::new(r.clone(), BigInt::zero())
        } else if quarter == 1 {
            BigComplex::new(BigInt::zero(), r.clone())
        } else if quarter == 2 {
            BigComplex::new(r.neg(), BigInt::zero())
        } else {
            BigComplex::new(BigInt::zero(), r.neg())
        }
    }

    /// The quadrant code of a non-zero value; `None` for zero.
    pub fn arg_quadrant(&self) -> (r: Option<i32>)
        ensures
            r is None <==> self@ == (0int, 0int),
            r matches Some(q) ==> q == quadrant(self@),
    {
        if self.is_zero() {
            return None;
        }
        match (self.re.is_positive(), self.im.is_positive()) {
            (true, true) => Some(0),
            (false, true) => Some(1),
            (false, false) => Some(2),
            (true, false) => Some(3),
        }
    }

    /// Multiplication by `i`: `a + bi` becomes `-b + ai`.
    pub fn rotate_90(&self) -> (r: BigComplex)
        ensures
            r@ == rot90(self@),
    {
        BigComplex::new(self.im.neg(), self.re.clone())
    }

    /// Multiplication by `-1`.
    pub fn rotate_180(&self) -> (r: BigComplex)
        ensures
            r@ == rot180(self@),
    {
        BigComplex::new(self.re.neg(), self.im.neg())
    }

    /// Multiplication by `-i`: `a + bi` becomes `b - ai`.
    pub fn rotate_270(&self) -> (r: BigComplex)
        ensures
            r@ == rot270(self@),
    {
        BigComplex::new(self.im.clone(), self.re.neg())
    }
}

impl BigComplex {
    /// `self^exp` by repeated squaring; `exp == 0` gives one.
    pub fn pow(&self, exp: u32) -> (r: BigComplex)
        ensures
            r@ == c_pow(self@, exp as nat),
    {
        if exp == 0 {
            return BigComplex::one();
        }
        let ghost z = self@;
        let mut result = self.clone();
        let mut current = self.clone();
        let mut power: u32 = exp - 1;
        let ghost mut m: nat = 1;
        proof {
            assert(c_pow(z, 0) == (1int, 0int));
            lemma_c_pow_add(z, 0, 1);
            assert(c_mul((1int, 0int), z) == z) by {
                assert(1 * z.0 - 0 * z.1 == z.0 && 1 * z.1 + 0 * z.0 == z.1) by (nonlinear_arith);
            }
        }
        while power > 0
            invariant
                current@ == c_pow(z, m),
                result@ == c_pow(z, (exp - m * power) as nat),
                m * power <= exp,
                m >= 1,
            decreases power,
        {
            let ghost p = power as nat;
            if power % 2 == 1 {
                proof {
                    lemma_c_pow_add(z, (exp - m * p) as nat, m);
                    assert(m * p == m * (p - 1) + m) by (nonlinear_arith);
                }
                result = result.mul(&current);
                proof {
                    assert((exp - m * p) as nat + m == (exp - m * (p - 1)) as nat);
                }
            }
            proof {
                lemma_c_pow_add(z, m, m);
                lemma_fundamental_div_mod(p as int, 2);
                if p % 2 == 1 {
                    assert(m * (p - 1) == (m + m) * (p / 2)) by (nonlinear_arith)
                        requires
                            p == 2 * (p / 2) + 1,
                    ;
                } else {
                    assert(m * p == (m + m) * (p / 2)) by (nonlinear_arith)
                        requires
                            p == 2 * (p / 2),
                    ;
                }
                assert((m + m) * (p / 2) <= m * p) by (nonlinear_arith)
                    requires
                        p / 2 * 2 <= p,
                        m >= 1,
                ;
            }
            current = current.mul(&current);
            power = power / 2;
            proof {
                m = m + m;
            }
        }
        proof {
            assert(m * 0 == 0);
        }
        result
    }

    /// The roots listed by `nth_root_list`: exact square roots of real
    /// perfect squares, a fixed placeholder where no general method is given.
    pub fn nth_root(&self, n: u32) -> (r: Vec<BigComplex>)
        ensures
            r@.len() == nth_root_list(self@, n as nat).len(),
            forall|k: int| 0 <= k < r@.len() ==> #[trigger] r@[k]@ == nth_root_list(self@, n as nat)[k],
    {
        let mut roots: Vec<BigComplex> = Vec::new();
        if n == 0 {
            return roots;
        }
        if self.is_zero() {
            roots.push(BigComplex::zero());
            return roots;
        }
        if n == 1 {
            roots.push(self.clone());
            return roots;
        }
        if n == 2 && self.is_real() {
            let positive = self.re.is_positive();
            let magnitude = self.re.abs();
            let root = match magnitude.sqrt() {
                Some(s) => s,
                None => BigInt::zero(),
            };
            let ghost v = magnitude@;
            let ghost s = root@;
            if root.mul(&root) == magnitude {
                proof {
                    assert(is_perfect_square(v));
                    let t = exact_root(v);
                    assert(t >= 0 && t * t == v);
                    lemma_unique_root(s, t, v);
                }
                if positive {
                    roots.push(BigComplex::new(root.clone(), BigInt::zero()));
                    roots.push(BigComplex::new(root.neg(), BigInt::zero()));
                } else {
                    roots.push(BigComplex::new(BigInt::zero(), root.clone()));
                    roots.push(BigComplex::new(BigInt::zero(), root.neg()));
                }
                return roots;
            }
            proof {
                assert(!is_perfect_square(v)) by {
                    if is_perfect_square(v) {
                        let t = exact_root(v);
                        lemma_unique_root(s, t, v);
                    }
                }
            }
        }
        roots.push(BigComplex::one());
        roots
    }

    /// `None` for zero; for a positive real, the number of halvings that
    /// bring it to at most one (a base-two logarithm, floored); the
    /// placeholder `i` for anything else.
    pub fn ln_approx(&self) -> (r: Option<BigComplex>)
        ensures
            r is None <==> self@ == (0int, 0int),
            r matches Some(w) ==> w@ == ln_value(self@),
    {
        if self.is_zero() {
            return None;
        }
        if self.is_real() && self.re.is_positive() {
            let one = BigInt::one();
            if self.re == one {
                return Some(BigComplex::zero());
            }
            let two = BigInt::new(2);
            let mut approx = BigInt::zero();
            let mut temp = self.re.clone();
            while temp > one
                invariant
                    temp@ >= 1,
                    one@ == 1,
                    two@ == 2,
                    approx@ + halvings(temp@ as nat) == halvings(self@.0 as nat),
                decreases temp@,
            {
                temp = temp.div(&two);
                approx = approx.add(&one);
            }
            return Some(BigComplex::new(approx, BigInt::zero()));
        }
        Some(BigComplex::new(BigInt::zero(), BigInt::one()))
    }

    /// One for zero; for a real value the truncated integer series of
    /// `exp_series`; the placeholder `1 + i` for anything else.
    pub fn exp_approx(&self) -> (r: BigComplex)
        ensures
            r@ == exp_value(self@),
    {
        if self.is_zero() {
            return BigComplex::one();
        }
        if self.is_real() {
            let mut result = BigComplex::one();
            let mut term = BigComplex::one();
            let mut i: i64 = 1;
            let one = BigInt::one();
            while i <= 10
                invariant_except_break
                    exp_series(self@, i as nat, term@, result@) == exp_series(
                        self@,
                        1,
                        (1, 0),
                        (1, 0),
                    ),
                invariant
                    1 <= i <= 11,
                    one@ == 1,
                    self@.1 == 0,
                    self@ != (0int, 0int),
                ensures
                    result@ == exp_series(self@, 1, (1, 0), (1, 0)),
                decreases 11 - i,
            {
                let divisor = BigComplex::new(BigInt::new(i), BigInt::zero());
                term = term.mul(self).quotient(&divisor);
                result = result.add(&term);
                if term.magnitude_squared() < one {
                    break ;
                }
                i = i + 1;
            }
            return result;
        }
        BigComplex::new(BigInt::one(), BigInt::one())
    }

    /// The text of the value, as `complex_text` spells it.
    pub fn to_string(&self) -> (r: String)
        ensures
            r@ == complex_text(self@),
    {
        proof {
            reveal_strlit("i");
            reveal_strlit("-i");
            reveal_strlit("+");
        }
        if self.im.is_zero() {
            return self.re.to_string();
        }
        if self.re.is_zero() {
            let one = BigInt::one();
            if self.im == one {
                return String::from_str("i");
            }
            if self.im == one.neg() {
                return String::from_str("-i");
            }
            let mut text = self.im.to_string();
            text.append("i");
            return text;
        }
        let mut text = self.re.to_string();
        if self.im.is_positive() {
            text.append("+");
        }
        text.append(self.im.to_string().as_str());
        text.append("i");
        assert(text@ =~= complex_text(self@));
        text
    }
}

/// A non-negative square root is the floor square root.
proof fn lemma_unique_root(s: int, t: int, v: int)
    requires
        s >= 0,
        t >= 0,
        s * s <= v < (s + 1) * (s + 1),
        t * t == v,
    ensures
        s == t,
{
    if t < s {
        assert(t * t < s * s) by (nonlinear_arith)
            requires
                0 <= t < s,
        ;
    } else if t > s {
        assert(t * t >= (s + 1) * (s + 1)) by (nonlinear_arith)
            requires
                t >= s + 1,
                s >= 0,
        ;
    }
}

impl Clone for BigComplex {
    fn clone(&self) -> (r: BigComplex)
        ensures
            r@ == self@,
    {
        BigComplex { re: self.re.clone(), im: self.im.clone() }
    }
}

impl PartialEq for BigComplex {
    fn eq(&self, other: &BigComplex) -> (r: bool) {
        self.re == other.re && self.im == other.im
    }
}

impl vstd::std_specs::cmp::PartialEqSpecImpl for BigComplex {
    open spec fn obeys_eq_spec() -> bool {
        true
    }

    open spec fn eq_spec(&self, other: &BigComplex) -> bool {
        self@ == other@
    }
}

} // verus!
