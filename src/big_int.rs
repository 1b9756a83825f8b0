//! Signed arbitrary-precision integers: a sign and a canonical magnitude.
use crate::limbs::{
    is_canonical, lemma_canonical_zero, limbs_add, limbs_cmp, limbs_div_rem, limbs_from_bytes_be,
    limbs_bits, limbs_gcd, limbs_lcm, limbs_modinv, limbs_modpow, limbs_mul, limbs_parse_decimal, limbs_pow, limbs_sub, limbs_to_bytes_be,
    limbs_to_decimal, limbs_value,
};
use crate::theory::{
    bit_len, is_power_of_two, lemma_be_value_step, lemma_bit_len_bounds, lemma_low_zero_bits_bounds,
    lemma_low_zero_bits_low, lemma_low_zero_bits_shift, lemma_popcount_le_bit_len,
    lemma_popcount_one, lemma_popcount_prefix, lemma_popcount_shift, lemma_pow2_is_power_of_two,
    low_zero_bits, popcount,
    abs, be_value, factorial, gcd, int_to_decimal, is_decimal_literal, is_digit, is_digit_char,
    is_prime, lcm, lemma_digits_bytes_chars, lemma_odd_no_even_divisor, lemma_pow_neg,
    lemma_prime_above, lemma_small_cofactor, literal_digits, lemma_mod_floor_of, lemma_mod_shift, lemma_neg_mod,
    mod_floor, literal_value, trunc_div, trunc_rem,
};
use vstd::arithmetic::div_mod::lemma_small_mod;
use vstd::arithmetic::power::pow;
use vstd::arithmetic::power2::{lemma2_to64, lemma_pow2, lemma_pow2_adds, lemma_pow2_pos, lemma_pow2_unfold, pow2};
use std::cmp::Ordering;
use vstd::prelude::*;
use vstd::string::StringExecFns;

verus! {

/// Sign of an integer.
#[derive(Clone, Copy, Debug, PartialEq, Eq, Structural)]
pub enum Sign {
    Minus,
    NoSign,
    Plus,
}

/// The sign of a mathematical integer.
pub open spec fn sign_of(a: int) -> Sign {
    if a < 0 {
        Sign::Minus
    } else if a == 0 {
        Sign::NoSign
    } else {
        Sign::Plus
    }
}

/// The order of two mathematical integers.
pub open spec fn order_of(a: int, b: int) -> Ordering {
    if a < b {
        Ordering::Less
    } else if a == b {
        Ordering::Equal
    } else {
        Ordering::Greater
    }
}

/// An exact signed integer of any size. Its value is `self@`.
#[derive(Debug)]
pub struct BigInt {
    sign: Sign,
    mag: Vec<u32>,
}

impl View for BigInt {
    type V = int;

    closed spec fn view(&self) -> int {
        if self.sign == Sign::Minus {
            -(limbs_value(self.mag@) as int)
        } else {
            limbs_value(self.mag@) as int
        }
    }
}

impl BigInt {
    /// The magnitude has no leading zero limb, and the sign is `NoSign`
    /// exactly for the empty magnitude, so each value has one representation.
    #[verifier::type_invariant]
    spec fn well_formed(self) -> bool {
        &&& is_canonical(self.mag@)
        &&& (self.sign == Sign::NoSign) == (self.mag@.len() == 0)
    }

    proof fn lemma_sign(self)
        requires
            self.well_formed(),
        ensures
            (self.sign == Sign::Minus) == (self@ < 0),
            (self.sign == Sign::NoSign) == (self@ == 0),
            (self.sign == Sign::Plus) == (self@ > 0),
            limbs_value(self.mag@) == abs(self@),
    {
        lemma_canonical_zero(self.mag@);
    }

    /// Builds the value `±limbs_value(mag)`.
    fn from_parts(negative: bool, mag: Vec<u32>) -> (r: BigInt)
        requires
            is_canonical(mag@),
        ensures
            r@ == (if negative {
                -(limbs_value(mag@) as int)
            } else {
                limbs_value(mag@) as int
            }),
    {
        let sign = if mag.len() == 0 {
            Sign::NoSign
        } else if negative {
            Sign::Minus
        } else {
            Sign::Plus
        };
        BigInt { sign, mag }
    }

    /// The integer equal to `value`.
    pub fn new(value: i64) -> (r: BigInt)
        ensures
            r@ == value as int,
    {
        let m: u64 = if value < 0 {
            (-(value as i128)) as u64
        } else {
            value as u64
        };
        let lo: u32 = (m % 0x1_0000_0000) as u32;
        let hi: u32 = (m / 0x1_0000_0000) as u32;
        let mut mag: Vec<u32> = Vec::new();
        if hi != 0 {
            mag.push(lo);
            mag.push(hi);
        } else if lo != 0 {
            mag.push(lo);
        }
        proof {
            reveal_with_fuel(limbs_value, 3);
            if hi != 0 {
                assert(mag@.drop_first() =~= seq![hi]);
                assert(mag@.drop_first().drop_first() =~= Seq::<u32>::empty());
            } else if lo != 0 {
                assert(mag@.drop_first() =~= Seq::<u32>::empty());
            }
        }
        BigInt::from_parts(value < 0, mag)
    }

    /// Zero.
    pub fn zero() -> (r: BigInt)
        ensures
            r@ == 0,
    {
        BigInt::from_parts(false, Vec::new())
    }

    /// One.
    pub fn one() -> (r: BigInt)
        ensures
            r@ == 1,
    {
        BigInt::new(1)
    }

    /// The sign of the value.
    pub fn sign(&self) -> (r: Sign)
        ensures
            r == sign_of(self@),
    {
        proof {
            use_type_invariant(self);
            self.lemma_sign();
        }
        self.sign
    }

    /// Whether the value is zero.
    pub fn is_zero(&self) -> (r: bool)
        ensures
            r == (self@ == 0),
    {
        proof {
            use_type_invariant(self);
            self.lemma_sign();
        }
        self.sign == Sign::NoSign
    }

    /// Whether the value is greater than zero.
    pub fn is_positive(&self) -> (r: bool)
        ensures
            r == (self@ > 0),
    {
        proof {
            use_type_invariant(self);
            self.lemma_sign();
        }
        self.sign == Sign::Plus
    }

    /// Whether the value is less than zero.
    pub fn is_negative(&self) -> (r: bool)
        ensures
            r == (self@ < 0),
    {
        proof {
            use_type_invariant(self);
            self.lemma_sign();
        }
        self.sign == Sign::Minus
    }

    /// The absolute value.
    pub fn abs(&self) -> (r: BigInt)
        ensures
            r@ == abs(self@),
    {
        proof {
            use_type_invariant(self);
            self.lemma_sign();
        }
        BigInt::from_parts(false, self.mag.clone())
    }

    /// The negation; zero stays zero.
    pub fn neg(&self) -> (r: BigInt)
        ensures
            r@ == -self@,
    {
        proof {
            use_type_invariant(self);
            self.lemma_sign();
        }
        BigInt::from_parts(self.sign == Sign::Plus, self.mag.clone())
    }

    /// The sum.
    pub fn add(&self, other: &BigInt) -> (r: BigInt)
        ensures
            r@ == self@ + other@,
    {
        proof {
            use_type_invariant(self);
            use_type_invariant(other);
            self.lemma_sign();
            other.lemma_sign();
        }
        let sn = self.sign == Sign::Minus;
        let on = other.sign == Sign::Minus;
        if sn == on {
            BigInt::from_parts(sn, limbs_add(&self.mag, &other.mag))
        } else {
            match limbs_cmp(&self.mag, &other.mag) {
                Ordering::Less => BigInt::from_parts(on, limbs_sub(&other.mag, &self.mag)),
                _ => BigInt::from_parts(sn, limbs_sub(&self.mag, &other.mag)),
            }
        }
    }

    /// The difference.
    pub fn sub(&self, other: &BigInt) -> (r: BigInt)
        ensures
            r@ == self@ - other@,
    {
        self.add(&other.neg())
    }

    /// The product.
    pub fn mul(&self, other: &BigInt) -> (r: BigInt)
        ensures
            r@ == self@ * other@,
    {
        proof {
            use_type_invariant(self);
            use_type_invariant(other);
            self.lemma_sign();
            other.lemma_sign();
        }
        let neg = (self.sign == Sign::Minus) != (other.sign == Sign::Minus);
        let r = BigInt::from_parts(neg, limbs_mul(&self.mag, &other.mag));
        proof {
            let (a, b) = (self@, other@);
            assert(abs(a) * abs(b) == if (a < 0) != (b < 0) { -(a * b) } else { a * b })
                by (nonlinear_arith);
        }
        r
    }

    /// The quotient rounded toward zero.
    pub fn div(&self, other: &BigInt) -> (r: BigInt)
        requires
            other@ != 0,
        ensures
            r@ == trunc_div(self@, other@),
    {
        proof {
            use_type_invariant(self);
            use_type_invariant(other);
            self.lemma_sign();
            other.lemma_sign();
        }
        let (q, _m) = limbs_div_rem(&self.mag, &other.mag);
        BigInt::from_parts((self.sign == Sign::Minus) != (other.sign == Sign::Minus), q)
    }

    /// The remainder of the quotient rounded toward zero; it has the sign of
    /// `self`, and `self == other * self.div(other) + self.rem(other)`.
    pub fn rem(&self, other: &BigInt) -> (r: BigInt)
        requires
            other@ != 0,
        ensures
            r@ == trunc_rem(self@, other@),
    {
        proof {
            use_type_invariant(self);
            use_type_invariant(other);
            self.lemma_sign();
            other.lemma_sign();
        }
        let (_q, m) = limbs_div_rem(&self.mag, &other.mag);
        BigInt::from_parts(self.sign == Sign::Minus, m)
    }

    /// Compares the values.
    pub fn cmp(&self, other: &BigInt) -> (r: Ordering)
        ensures
            r == order_of(self@, other@),
    {
        proof {
            use_type_invariant(self);
            use_type_invariant(other);
            self.lemma_sign();
            other.lemma_sign();
        }
        match (self.sign, other.sign) {
            (Sign::Plus, Sign::Plus) => limbs_cmp(&self.mag, &other.mag),
            (Sign::Minus, Sign::Minus) => limbs_cmp(&other.mag, &self.mag),
            (Sign::NoSign, Sign::NoSign) => Ordering::Equal,
            (Sign::Minus, _) => Ordering::Less,
            (Sign::NoSign, Sign::Plus) => Ordering::Less,
            _ => Ordering::Greater,
        }
    }

    /// Canonical decimal form: optional `-`, no leading zero, `"0"` for zero.
    pub fn to_string(&self) -> (r: String)
        ensures
            r@ == int_to_decimal(self@),
    {
        proof {
            use_type_invariant(self);
            self.lemma_sign();
        }
        let digits = limbs_to_decimal(&self.mag);
        if self.sign == Sign::Minus {
            let mut s = String::from_str("-");
            s.append(digits.as_str());
            proof {
                reveal_strlit("-");
            }
            s
        } else {
            digits
        }
    }
}

impl BigInt {
    /// Parses an optional `-` followed by decimal digits; anything else,
    /// including the empty string and a lone `-`, gives `None`.
    pub fn from_string(s: &str) -> (r: Option<BigInt>)
        ensures
            r is Some <==> is_decimal_literal(s@),
            r matches Some(x) ==> x@ == literal_value(s@),
    {
        if !s.is_ascii() {
            proof {
                if is_decimal_literal(s@) {
                    assert forall|i: int| 0 <= i < s@.len() implies '\0' <= #[trigger] s@[i]
                        <= '\u{7f}' by {
                        if s@.len() > 0 && s@[0] == '-' {
                            if i > 0 {
                                assert(is_digit_char(literal_digits(s@)[i - 1]));
                            }
                        } else {
                            assert(is_digit_char(literal_digits(s@)[i]));
                        }
                    }
                }
            }
            return None;
        }
        let bytes = s.as_bytes();
        proof {
            vstd::string::is_ascii_spec_bytes(s);
        }
        let n = bytes.len();
        let negative = n > 0 && bytes[0] == 45u8;
        let start: usize = if negative {
            1
        } else {
            0
        };
        let ghost d = literal_digits(s@);
        assert(d =~= s@.subrange(start as int, n as int));
        if start == n {
            return None;
        }
        let mut digits: Vec<u8> = Vec::new();
        let mut i: usize = start;
        while i < n
            invariant
                start <= i <= n,
                n == bytes@.len(),
                n == s@.len(),
                d == s@.subrange(start as int, n as int),
                d == literal_digits(s@),
                forall|j: int| 0 <= j < n ==> #[trigger] bytes@[j] == s@[j] as u8,
                digits@ == bytes@.subrange(start as int, i as int),
                forall|j: int| start <= j < i ==> is_digit_char(#[trigger] s@[j]),
                s.is_ascii(),
            decreases n - i,
        {
            let b = bytes[i];
            assert('\0' <= s@[i as int] <= '\u{7f}');
            if b < 48u8 || b > 57u8 {
                proof {
                    let c = s@[i as int];
                    assert(c as u8 == b);
                    assert((c as u8) as int == c as int);
                    assert(!is_digit_char(c));
                    assert(d[i - start] == c);
                }
                return None;
            }
            digits.push(b);
            i = i + 1;
            proof {
                assert(digits@ =~= bytes@.subrange(start as int, i as int));
            }
        }
        proof {
            assert forall|j: int| 0 <= j < d.len() implies is_digit_char(#[trigger] d[j]) by {
                assert(d[j] == s@[j + start]);
            }
            assert forall|j: int| 0 <= j < digits@.len() implies is_digit(#[trigger] digits@[j]) by {
                assert(digits@[j] == s@[j + start] as u8);
            }
            assert forall|j: int| 0 <= j < d.len() implies #[trigger] digits@[j] == d[j] as u8 by {
                assert(d[j] == s@[j + start]);
            }
            lemma_digits_bytes_chars(digits@, d);
        }
        match limbs_parse_decimal(digits.as_slice()) {
            Some(mag) => Some(BigInt::from_parts(negative, mag)),
            None => None,
        }
    }

    /// The integer `±be_value(bytes)`; `NoSign` gives zero whatever the bytes.
    pub fn from_bytes_be(sign: Sign, bytes: &[u8]) -> (r: BigInt)
        ensures
            r@ == (match sign {
                Sign::Minus => -(be_value(bytes@) as int),
                Sign::NoSign => 0,
                Sign::Plus => be_value(bytes@) as int,
            }),
    {
        match sign {
            Sign::NoSign => BigInt::zero(),
            Sign::Plus => BigInt::from_parts(false, limbs_from_bytes_be(bytes)),
            Sign::Minus => BigInt::from_parts(true, limbs_from_bytes_be(bytes)),
        }
    }

    /// The sign and the big-endian bytes of the magnitude, with no leading
    /// zero byte; zero gives `NoSign` and no bytes.
    pub fn to_bytes_be(&self) -> (r: (Sign, Vec<u8>))
        ensures
            r.0 == sign_of(self@),
            be_value(r.1@) == abs(self@),
            self@ == 0 ==> r.1@.len() == 0,
            self@ != 0 ==> r.1@.len() > 0 && r.1@[0] != 0,
    {
        proof {
            use_type_invariant(self);
            self.lemma_sign();
        }
        if self.sign == Sign::NoSign {
            (Sign::NoSign, Vec::new())
        } else {
            (self.sign, limbs_to_bytes_be(&self.mag))
        }
    }

    /// `self` raised to `exp`; `exp == 0` gives one, also for a zero base.
    pub fn pow(&self, exp: u32) -> (r: BigInt)
        ensures
            r@ == pow(self@, exp as nat),
    {
        proof {
            use_type_invariant(self);
            self.lemma_sign();
            lemma_pow_neg(abs(self@) as int, exp as nat);
        }
        let negative = self.sign == Sign::Minus && exp % 2 == 1;
        BigInt::from_parts(negative, limbs_pow(&self.mag, exp as u64))
    }

    /// Floor square root by binary search over `[0, self]`; `None` for a
    /// negative value.
    pub fn sqrt(&self) -> (r: Option<BigInt>)
        ensures
            r is None <==> self@ < 0,
            r matches Some(s) ==> 0 <= s@ && s@ * s@ <= self@ < (s@ + 1) * (s@ + 1),
    {
        if self.is_negative() {
            return None;
        }
        let one = BigInt::one();
        let two = BigInt::new(2);
        let mut low = BigInt::zero();
        let mut high = self.clone();
        assert(self@ < (self@ + 1) * (self@ + 1)) by (nonlinear_arith)
            requires
                self@ >= 0,
        ;
        while low <= high
            invariant
                0 <= low@ <= high@ + 1,
                0 <= high@ <= self@,
                one@ == 1,
                two@ == 2,
                low@ == 0 || (low@ - 1) * (low@ - 1) <= self@,
                self@ < (high@ + 1) * (high@ + 1),
            decreases high@ + 1 - low@,
        {
            let mid = low.add(&high).div(&two);
            let mid_squared = mid.mul(&mid);
            match mid_squared.cmp(self) {
                Ordering::Equal => {
                    proof {
                        let m = mid@;
                        assert(m * m < (m + 1) * (m + 1)) by (nonlinear_arith)
                            requires
                                m >= 0,
                        ;
                    }
                    return Some(mid);
                },
                Ordering::Less => {
                    low = mid.add(&one);
                },
                Ordering::Greater => {
                    proof {
                        let m = mid@;
                        assert(m >= 1) by (nonlinear_arith)
                            requires
                                m * m > self@,
                                self@ >= 0,
                                m >= 0,
                        ;
                    }
                    high = mid.sub(&one);
                },
            }
        }
        Some(high)
    }

    /// The greatest common divisor of the absolute values, never negative.
    pub fn gcd(&self, other: &BigInt) -> (r: BigInt)
        ensures
            r@ == gcd(abs(self@), abs(other@)),
    {
        proof {
            use_type_invariant(self);
            use_type_invariant(other);
            self.lemma_sign();
            other.lemma_sign();
        }
        BigInt::from_parts(false, limbs_gcd(&self.mag, &other.mag))
    }

    /// The least common multiple of the absolute values, never negative.
    pub fn lcm(&self, other: &BigInt) -> (r: BigInt)
        ensures
            r@ == lcm(abs(self@), abs(other@)),
    {
        proof {
            use_type_invariant(self);
            use_type_invariant(other);
            self.lemma_sign();
            other.lemma_sign();
        }
        BigInt::from_parts(false, limbs_lcm(&self.mag, &other.mag))
    }

    /// `self!` by accumulating `1 * 2 * ... * self`; `None` for a negative
    /// value.
    pub fn factorial(&self) -> (r: Option<BigInt>)
        ensures
            r is None <==> self@ < 0,
            r matches Some(f) ==> f@ == factorial(self@ as nat),
    {
        if self.is_negative() {
            return None;
        }
        let one = BigInt::one();
        let mut result = BigInt::one();
        let mut current = BigInt::one();
        while current <= *self
            invariant
                1 <= current@ <= self@ + 1,
                one@ == 1,
                result@ == factorial((current@ - 1) as nat),
            decreases self@ + 1 - current@,
        {
            let ghost c = current@;
            result = result.mul(&current);
            current = current.add(&one);
            assert(factorial(c as nat) == c * factorial((c - 1) as nat));
            assert(result@ == factorial(c as nat)) by (nonlinear_arith)
                requires
                    result@ == factorial((c - 1) as nat) * c,
                    factorial(c as nat) == c * factorial((c - 1) as nat),
            ;
        }
        Some(result)
    }

    /// Trial division by 2 and by every odd number up to the floor square
    /// root. Exact for every input, at a cost of O(sqrt(n)) divisions.
    pub fn is_prime(&self) -> (r: bool)
        ensures
            r == is_prime(self@),
    {
        let one = BigInt::one();
        let two = BigInt::new(2);
        if *self <= one {
            return false;
        }
        if *self == two {
            return true;
        }
        if self.rem(&two).is_zero() {
            assert(self@ % 2 == 0);
            return false;
        }
        let sqrt_n = match self.sqrt() {
            Some(s) => s,
            None => BigInt::zero(),
        };
        let ghost n = self@;
        let ghost s = sqrt_n@;
        assert(s >= 1) by (nonlinear_arith)
            requires
                n >= 3,
                s >= 0,
                n < (s + 1) * (s + 1),
        ;
        let mut i = BigInt::new(3);
        while i <= sqrt_n
            invariant
                n == self@,
                s == sqrt_n@,
                n >= 3,
                n % 2 == 1,
                0 <= s,
                s * s <= n < (s + 1) * (s + 1),
                two@ == 2,
                3 <= i@ <= s + 2,
                i@ % 2 == 1,
                forall|d: int| 2 <= d < i@ ==> #[trigger] (n % d) != 0,
            decreases s + 2 - i@,
        {
            if self.rem(&i).is_zero() {
                assert(i@ < n) by (nonlinear_arith)
                    requires
                        3 <= i@ <= s,
                        s * s <= n,
                ;
                assert(n % i@ == 0);
                return false;
            }
            let ghost old_i = i@;
            i = i.add(&two);
            proof {
                assert forall|d: int| 2 <= d < i@ implies #[trigger] (n % d) != 0 by {
                    if d == old_i + 1 {
                        lemma_odd_no_even_divisor(n, d);
                    }
                }
            }
        }
        proof {
            assert forall|d: int| 2 <= d < n implies #[trigger] (n % d) != 0 by {
                if d >= i@ && n % d == 0 {
                    let e = lemma_small_cofactor(n, d, s);
                }
            }
        }
        true
    }

    /// The least prime strictly above `self`, except that everything up to
    /// two gives two.
    pub fn next_prime(&self) -> (r: BigInt)
        ensures
            is_prime(r@),
            self@ <= 2 ==> r@ == 2,
            self@ > 2 ==> self@ < r@ && forall|q: int| self@ < q < r@ ==> !is_prime(q),
    {
        let one = BigInt::one();
        let two = BigInt::new(2);
        let small = *self <= two;
        let even = self.rem(&two).is_zero();
        let mut candidate = if small {
            BigInt::new(2)
        } else if even {
            self.add(&one)
        } else {
            self.add(&two)
        };
        let ghost bound = if self@ > 2 {
            lemma_prime_above(self@ as nat)
        } else {
            2
        };
        proof {
            if self@ > 2 {
                assert(self@ % 2 == 0 <==> even);
                assert forall|q: int| self@ < q < candidate@ implies !is_prime(q) by {
                    assert(q % 2 == 0);
                }
                assert(bound % 2 != 0);
            }
        }
        while !candidate.is_prime()
            invariant
                two@ == 2,
                self@ <= 2 ==> candidate@ == 2,
                self@ > 2 ==> {
                    &&& self@ < candidate@ <= bound
                    &&& candidate@ % 2 == 1
                    &&& bound > self@
                    &&& is_prime(bound)
                    &&& bound % 2 == 1
                    &&& forall|q: int| self@ < q < candidate@ ==> !is_prime(q)
                },
            decreases bound - candidate@,
        {
            proof {
                if self@ <= 2 {
                    assert(is_prime(2));
                }
            }
            let ghost old_c = candidate@;
            candidate = candidate.add(&two);
            proof {
                assert forall|q: int| self@ < q < candidate@ implies !is_prime(q) by {
                    if q == old_c + 1 {
                        assert(q % 2 == 0);
                    }
                }
            }
        }
        candidate
    }
}

impl BigInt {
    /// `self ^ exponent` reduced modulo `modulus`, with the sign of the
    /// modulus: the result lies in `[0, modulus)` for a positive modulus and in
    /// `(modulus, 0]` for a negative one.
    pub fn mod_pow(&self, exponent: &BigInt, modulus: &BigInt) -> (r: BigInt)
        requires
            exponent@ >= 0,
            modulus@ != 0,
        ensures
            r@ == mod_floor(pow(self@, exponent@ as nat), modulus@),
    {
        proof {
            use_type_invariant(self);
            use_type_invariant(exponent);
            use_type_invariant(modulus);
            self.lemma_sign();
            exponent.lemma_sign();
            modulus.lemma_sign();
        }
        let ghost a = self@;
        let ghost e = exponent@ as nat;
        let ghost m = modulus@;
        let ghost big_m = abs(m) as int;
        let ghost p = pow(abs(a) as int, e);
        proof {
            lemma_pow_neg(abs(a) as int, e);
        }
        let ghost t = pow(a, e);
        if modulus.abs() == BigInt::one() {
            proof {
                lemma_mod_floor_of(t, 0, m);
            }
            return BigInt::zero();
        }
        let two = BigInt::new(2);
        let odd = !exponent.rem(&two).is_zero();
        let flip = self.sign == Sign::Minus && odd;
        let negative_modulus = modulus.sign == Sign::Minus;
        let res = limbs_modpow(&self.mag, &exponent.mag, &modulus.mag);
        let ghost rr = limbs_value(res@) as int;
        proof {
            assert(t == if flip { -p } else { p });
            assert(rr == p % big_m);
            lemma_neg_mod(p, big_m);
        }
        if res.len() == 0 {
            proof {
                lemma_canonical_zero(res@);
                lemma_mod_floor_of(t, 0, m);
            }
            return BigInt::zero();
        }
        proof {
            lemma_canonical_zero(res@);
            lemma_small_mod((big_m - rr) as nat, big_m as nat);
            lemma_small_mod(rr as nat, big_m as nat);
            lemma_neg_mod(big_m - rr, big_m);
            lemma_neg_mod(rr, big_m);
        }
        let r = if flip == negative_modulus {
            BigInt::from_parts(negative_modulus, res)
        } else {
            BigInt::from_parts(negative_modulus, limbs_sub(&modulus.mag, &res))
        };
        proof {
            lemma_mod_floor_of(t, r@, m);
        }
        r
    }

    /// The inverse of `self` modulo `modulus`, present exactly when the two
    /// are coprime; like `mod_pow`, it takes the sign of the modulus.
    pub fn mod_inv(&self, modulus: &BigInt) -> (r: Option<BigInt>)
        requires
            modulus@ != 0,
        ensures
            r is Some <==> gcd(abs(self@), abs(modulus@)) == 1,
            r matches Some(x) ==> mod_floor(self@ * x@, modulus@) == mod_floor(1, modulus@)
                && mod_floor(x@, modulus@) == x@,
    {
        proof {
            use_type_invariant(self);
            use_type_invariant(modulus);
            self.lemma_sign();
            modulus.lemma_sign();
        }
        let ghost a = self@;
        let ghost m = modulus@;
        let ghost big_a = abs(a) as int;
        let ghost big_m = abs(m) as int;
        match limbs_modinv(&self.mag, &modulus.mag) {
            None => None,
            Some(x0) => {
                let ghost v = limbs_value(x0@) as int;
                proof {
                    lemma_canonical_zero(x0@);
                }
                let flip = self.sign == Sign::Minus;
                let negative_modulus = modulus.sign == Sign::Minus;
                let x = if x0.len() == 0 {
                    BigInt::zero()
                } else if flip == negative_modulus {
                    BigInt::from_parts(negative_modulus, x0)
                } else {
                    BigInt::from_parts(negative_modulus, limbs_sub(&modulus.mag, &x0))
                };
                proof {
                    let y = x@;
                    if v == 0 {
                        assert(big_m == 1) by {
                            assert(big_a * v == 0) by (nonlinear_arith)
                                requires
                                    v == 0,
                            ;
                            assert((big_a * v) % big_m == 1int % big_m);
                            lemma_small_mod(0, big_m as nat);
                            assert(big_m >= 1);
                            if big_m > 1 {
                                lemma_small_mod(1, big_m as nat);
                            }
                        }
                        assert(mod_floor(a * y, m) == mod_floor(1, m)) by {
                            lemma_mod_floor_of(a * y, 0, m);
                            lemma_mod_floor_of(1, 0, m);
                        }
                        lemma_mod_floor_of(y, 0, m);
                    } else {
                        if flip == negative_modulus {
                            assert(a * y == big_a * v) by (nonlinear_arith)
                                requires
                                    y == (if negative_modulus { -v } else { v }),
                                    a == (if flip { -big_a } else { big_a }),
                                    flip == negative_modulus,
                            ;
                        } else {
                            assert(a * y == big_m * (-big_a) + big_a * v) by (nonlinear_arith)
                                requires
                                    y == (if negative_modulus { -(big_m - v) } else { big_m - v }),
                                    a == (if flip { -big_a } else { big_a }),
                                    flip != negative_modulus,
                            ;
                            lemma_mod_shift(big_a * v, -big_a, big_m);
                        }
                        lemma_small_mod(1, big_m as nat);
                        let t = a * y;
                        assert(mod_floor(t, m) == mod_floor(1, m)) by {
                            let z = mod_floor(1, m);
                            lemma_neg_mod(1, big_m);
                            lemma_neg_mod(t, big_m);
                            if m > 0 {
                                lemma_mod_floor_of(t, z, m);
                            } else {
                                lemma_neg_mod(z, big_m);
                                lemma_small_mod((-z) as nat, big_m as nat);
                                lemma_mod_floor_of(t, z, m);
                            }
                        }
                        lemma_small_mod(v as nat, big_m as nat);
                        lemma_small_mod((big_m - v) as nat, big_m as nat);
                        lemma_mod_floor_of(y, y, m);
                    }
                }
                Some(x)
            },
        }
    }
}

/// Relies on `u8::count_ones`: the number of one bits of a byte.
#[verifier::external_body]
fn byte_count_ones(b: u8) -> (r: u32)
    ensures
        r == popcount(b as nat),
{
    b.count_ones()
}

/// The number of low zero bits of a non-zero byte.
fn byte_trailing_zeros(b: u8) -> (r: u64)
    requires
        b != 0,
    ensures
        r == low_zero_bits(b as nat),
{
    let mut x: u8 = b;
    let mut count: u64 = 0;
    proof {
        lemma_low_zero_bits_bounds(b as nat);
    }
    while x % 2 == 0
        invariant
            x > 0,
            count + low_zero_bits(x as nat) == low_zero_bits(b as nat),
            low_zero_bits(b as nat) <= 255,
        decreases x,
    {
        x = x / 2;
        count = count + 1;
    }
    count
}

impl BigInt {
    /// The number of binary digits of the magnitude; zero for zero.
    pub fn bit_length(&self) -> (r: usize)
        requires
            bit_len(abs(self@)) <= usize::MAX,
        ensures
            r == bit_len(abs(self@)),
    {
        proof {
            use_type_invariant(self);
            self.lemma_sign();
        }
        limbs_bits(&self.mag) as usize
    }

    /// The number of one bits of the magnitude's bytes; zero for a negative
    /// value, which is not a two's-complement count.
    pub fn count_ones(&self) -> (r: u64)
        ensures
            r == (if self@ < 0 {
                0
            } else {
                popcount(self@ as nat)
            }),
    {
        proof {
            use_type_invariant(self);
            self.lemma_sign();
        }
        if self.is_negative() {
            return 0;
        }
        let (_, bytes) = self.to_bytes_be();
        let ghost v = self@ as nat;
        let bits = limbs_bits(&self.mag);
        proof {
            lemma_popcount_le_bit_len(v);
        }
        let mut total: u64 = 0;
        let mut i: usize = 0;
        while i < bytes.len()
            invariant
                i <= bytes@.len(),
                be_value(bytes@) == v,
                popcount(v) <= bits,
                total == popcount(be_value(bytes@.subrange(0, i as int))),
            decreases bytes@.len() - i,
        {
            proof {
                lemma_popcount_prefix(bytes@, i + 1);
                lemma_be_value_step(bytes@, i as int);
                lemma2_to64();
                lemma_popcount_shift(be_value(bytes@.subrange(0, i as int)), bytes@[i as int] as nat, 8);
            }
            total = total + byte_count_ones(bytes[i]) as u64;
            i = i + 1;
        }
        proof {
            assert(bytes@.subrange(0, i as int) =~= bytes@);
        }
        total
    }

    /// The number of low zero bits of the magnitude; `None` for zero.
    pub fn trailing_zeros(&self) -> (r: Option<u64>)
        ensures
            r is None <==> self@ == 0,
            r matches Some(t) ==> t == low_zero_bits(abs(self@)),
    {
        proof {
            use_type_invariant(self);
            self.lemma_sign();
        }
        if self.is_zero() {
            return None;
        }
        let (_, bytes) = self.to_bytes_be();
        let ghost v = abs(self@);
        let ghost len = bytes@.len();
        let bits = limbs_bits(&self.mag);
        proof {
            lemma_low_zero_bits_bounds(v);
            lemma2_to64();
            assert(bytes@.subrange(0, len as int) =~= bytes@);
            let z: nat = 0;
            assert(v == be_value(bytes@.subrange(0, len as int)) * pow2(z)) by (nonlinear_arith)
                requires
                    pow2(z) == 1,
                    v == be_value(bytes@.subrange(0, len as int)),
            ;
        }
        let mut zeros: u64 = 0;
        let mut i: usize = bytes.len();
        loop
            invariant_except_break
                zeros == 8 * (len - i),
            invariant
                1 <= i <= len,
                len == bytes@.len(),
                bytes@[0] != 0,
                v > 0,
                low_zero_bits(v) < bits,
                be_value(bytes@) == v,
                v == be_value(bytes@.subrange(0, i as int)) * pow2(8 * (len - i) as nat),
                pow2(8) == 256,
            ensures
                zeros == low_zero_bits(v),
            decreases i,
        {
            let b = bytes[i - 1];
            let ghost x = be_value(bytes@.subrange(0, i - 1));
            let ghost k = 8 * (len - i) as nat;
            proof {
                lemma_be_value_step(bytes@, i - 1);
                lemma_pow2_pos(k);
                lemma_pow2_adds(8, k);
            }
            if b == 0 {
                proof {
                    assert(v == x * pow2(8 + k)) by (nonlinear_arith)
                        requires
                            v == (x * 256 + 0) * pow2(k),
                            pow2(8 + k) == 256 * pow2(k),
                    ;
                    if x == 0 {
                        assert(v == 0) by (nonlinear_arith)
                            requires
                                v == x * pow2(8 + k),
                                x == 0,
                        ;
                    }
                    lemma_low_zero_bits_shift(x, 8 + k);
                    assert(i - 1 >= 1);
                }
                zeros = zeros + 8;
                i = i - 1;
                proof {
                    assert(8 * (len - i) == 8 + k);
                }
            } else {
                let t = byte_trailing_zeros(b);
                proof {
                    let c = x * 256 + b as nat;
                    assert(c > 0);
                    lemma_low_zero_bits_shift(c, k);
                    lemma_low_zero_bits_low(x, b as nat, 8);
                }
                zeros = zeros + t;
                break ;
            }
        }
        Some(zeros)
    }

    /// Whether the value is a positive power of two.
    pub fn is_power_of_two(&self) -> (r: bool)
        ensures
            r == (self@ > 0 && is_power_of_two(self@ as nat)),
    {
        if !self.is_positive() {
            return false;
        }
        proof {
            lemma_popcount_one(self@ as nat);
        }
        self.count_ones() == 1
    }

    /// The least power of two that is at least `self`; one for anything up
    /// to one.
    pub fn next_power_of_two(&self) -> (r: BigInt)
        ensures
            r@ >= 1,
            is_power_of_two(r@ as nat),
            r@ >= self@,
            r@ == 1 || r@ / 2 < self@,
    {
        proof {
            use_type_invariant(self);
            self.lemma_sign();
        }
        let one = BigInt::one();
        if *self <= one {
            proof {
                lemma2_to64();
                lemma_pow2_is_power_of_two(0);
            }
            return one;
        }
        if self.is_power_of_two() {
            return self.clone();
        }
        let bits = limbs_bits(&self.mag);
        let two: Vec<u32> = vec![2u32];
        proof {
            reveal_with_fuel(limbs_value, 2);
            assert(two@.drop_first() =~= Seq::<u32>::empty());
            lemma_pow2(bits as nat);
            let n = self@ as nat;
            lemma_bit_len_bounds(n);
            lemma_pow2_unfold(bits as nat);
            lemma_pow2_is_power_of_two(bits as nat);
            lemma_pow2_is_power_of_two((bits - 1) as nat);
        }
        BigInt::from_parts(false, limbs_pow(&two, bits))
    }
}

impl Clone for BigInt {
    fn clone(&self) -> (r: BigInt)
        ensures
            r@ == self@,
    {
        proof {
            use_type_invariant(self);
        }
        let mag = self.mag.clone();
        proof {
            assert(mag@ =~= self.mag@);
        }
        BigInt { sign: self.sign, mag }
    }
}

impl PartialEq for BigInt {
    fn eq(&self, other: &BigInt) -> (r: bool) {
        match self.cmp(other) {
            Ordering::Equal => true,
            _ => false,
        }
    }
}

impl vstd::std_specs::cmp::PartialEqSpecImpl for BigInt {
    open spec fn obeys_eq_spec() -> bool {
        true
    }

    open spec fn eq_spec(&self, other: &BigInt) -> bool {
        self@ == other@
    }
}

impl PartialOrd for BigInt {
    fn partial_cmp(&self, other: &BigInt) -> (r: Option<Ordering>) {
        Some(self.cmp(other))
    }
}

impl vstd::std_specs::cmp::PartialOrdSpecImpl for BigInt {
    open spec fn obeys_partial_cmp_spec() -> bool {
        true
    }

    open spec fn partial_cmp_spec(&self, other: &BigInt) -> Option<Ordering> {
        Some(order_of(self@, other@))
    }
}

} // verus!
