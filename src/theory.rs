//! Mathematical definitions the contracts are stated over, with the lemmas
//! that connect them.
use vstd::arithmetic::div_mod::*;
use vstd::arithmetic::mul::*;
use vstd::arithmetic::power::*;
use vstd::arithmetic::power2::*;
use vstd::prelude::*;

verus! {

/// Absolute value.
pub open spec fn abs(a: int) -> nat {
    if a < 0 {
        (-a) as nat
    } else {
        a as nat
    }
}

/// Quotient rounded toward zero.
pub open spec fn trunc_div(a: int, b: int) -> int {
    if (a < 0) == (b < 0) {
        (abs(a) / abs(b)) as int
    } else {
        -((abs(a) / abs(b)) as int)
    }
}

/// Remainder of the quotient rounded toward zero: it takes the dividend's sign.
pub open spec fn trunc_rem(a: int, b: int) -> int {
    if a < 0 {
        -((abs(a) % abs(b)) as int)
    } else {
        (abs(a) % abs(b)) as int
    }
}

/// Remainder of the quotient rounded toward negative infinity: it takes the
/// modulus's sign, and lies in `[0, m)` or `(m, 0]`.
pub open spec fn mod_floor(a: int, m: int) -> int {
    if m > 0 {
        a % m
    } else {
        -((-a) % (-m))
    }
}

/// Greatest common divisor, with `gcd(a, 0) == a`.
pub open spec fn gcd(a: nat, b: nat) -> nat
    decreases b,
{
    if b == 0 {
        a
    } else {
        gcd(b, a % b)
    }
}

/// Least common multiple, zero when either argument is.
pub open spec fn lcm(a: nat, b: nat) -> nat {
    if gcd(a, b) == 0 {
        0
    } else {
        (a * b) / gcd(a, b)
    }
}

/// `n!`.
pub open spec fn factorial(n: nat) -> nat
    decreases n,
{
    if n == 0 {
        1
    } else {
        n * factorial((n - 1) as nat)
    }
}

/// Primality by definition: at least two, and no divisor strictly between
/// one and itself.
pub open spec fn is_prime(n: int) -> bool {
    &&& n >= 2
    &&& forall|d: int| 2 <= d < n ==> #[trigger] (n % d) != 0
}

/// Number of one bits in the binary expansion.
pub open spec fn popcount(n: nat) -> nat
    decreases n,
{
    if n == 0 {
        0
    } else {
        n % 2 + popcount(n / 2)
    }
}

/// Number of binary digits, zero for zero.
pub open spec fn bit_len(n: nat) -> nat
    decreases n,
{
    if n == 0 {
        0
    } else {
        1 + bit_len(n / 2)
    }
}

/// Number of low zero bits of a non-zero number.
pub open spec fn low_zero_bits(n: nat) -> nat
    decreases n,
{
    if n == 0 || n % 2 == 1 {
        0
    } else {
        1 + low_zero_bits(n / 2)
    }
}

/// `n` is `2^k` for some `k`.
pub open spec fn is_power_of_two(n: nat) -> bool
    decreases n,
{
    if n <= 1 {
        n == 1
    } else {
        n % 2 == 0 && is_power_of_two(n / 2)
    }
}

/// Value of big-endian bytes.
pub open spec fn be_value(b: Seq<u8>) -> nat
    decreases b.len(),
{
    if b.len() == 0 {
        0
    } else {
        be_value(b.drop_last()) * 256 + b.last() as nat
    }
}

/// An ASCII decimal digit.
pub open spec fn is_digit(c: u8) -> bool {
    48 <= c <= 57
}

/// Value of a string of ASCII decimal digits.
pub open spec fn decimal_value(s: Seq<u8>) -> nat
    decreases s.len(),
{
    if s.len() == 0 {
        0
    } else {
        decimal_value(s.drop_last()) * 10 + (s.last() - 48) as nat
    }
}

/// The character of one decimal digit.
pub open spec fn digit_char(d: nat) -> char {
    ((d + 48) as u8) as char
}

/// Canonical decimal form of a natural number: no leading zero, `"0"` for
/// zero.
pub open spec fn decimal_digits(n: nat) -> Seq<char>
    decreases n,
{
    if n < 10 {
        seq![digit_char(n)]
    } else {
        decimal_digits(n / 10).push(digit_char(n % 10))
    }
}

/// Canonical decimal form of an integer, with a leading `-` when negative.
pub open spec fn int_to_decimal(a: int) -> Seq<char> {
    if a < 0 {
        seq!['-'] + decimal_digits(abs(a))
    } else {
        decimal_digits(abs(a))
    }
}

/// Digit characters in `'0'..='9'`.
pub open spec fn is_digit_char(c: char) -> bool {
    '0' <= c <= '9'
}

/// Value of a string of decimal digit characters.
pub open spec fn digits_value(s: Seq<char>) -> nat
    decreases s.len(),
{
    if s.len() == 0 {
        0
    } else {
        digits_value(s.drop_last()) * 10 + (s.last() as nat - 48) as nat
    }
}

/// The digits of a decimal literal: what follows an optional leading `-`.
pub open spec fn literal_digits(s: Seq<char>) -> Seq<char> {
    if s.len() > 0 && s[0] == '-' {
        s.drop_first()
    } else {
        s
    }
}

/// An optional `-` followed by at least one decimal digit, and nothing else.
pub open spec fn is_decimal_literal(s: Seq<char>) -> bool {
    &&& literal_digits(s).len() > 0
    &&& forall|i: int| 0 <= i < literal_digits(s).len() ==> is_digit_char(#[trigger] literal_digits(s)[i])
}

/// The integer a decimal literal denotes.
pub open spec fn literal_value(s: Seq<char>) -> int {
    if s.len() > 0 && s[0] == '-' {
        -(digits_value(s.drop_first()) as int)
    } else {
        digits_value(s) as int
    }
}

/// Digit bytes and digit characters that match one for one have the same
/// value.
pub proof fn lemma_digits_bytes_chars(b: Seq<u8>, c: Seq<char>)
    requires
        b.len() == c.len(),
        forall|i: int| 0 <= i < c.len() ==> is_digit_char(#[trigger] c[i]),
        forall|i: int| 0 <= i < c.len() ==> #[trigger] b[i] == c[i] as u8,
    ensures
        decimal_value(b) == digits_value(c),
    decreases c.len(),
{
    if c.len() > 0 {
        assert(b.last() == c.last() as u8);
        assert(is_digit_char(c[c.len() - 1]));
        lemma_digits_bytes_chars(b.drop_last(), c.drop_last());
    }
}

/// `k` divides `d` and `d` divides `m`, so `k` divides `m`.
pub proof fn lemma_divides_trans(k: int, d: int, m: int)
    requires
        k > 0,
        d > 0,
        d % k == 0,
        m % d == 0,
    ensures
        m % k == 0,
{
    lemma_fundamental_div_mod(d, k);
    lemma_fundamental_div_mod(m, d);
    let a = d / k;
    let b = m / d;
    assert(m == k * (a * b)) by (nonlinear_arith)
        requires
            d == k * a,
            m == d * b,
    ;
    lemma_mod_multiples_basic(a * b, k);
    lemma_mul_is_commutative(k, a * b);
}

/// `a` divides `x` and `y`, so it divides `x - y`... and `x + y`.
pub proof fn lemma_divides_linear(a: int, x: int, y: int)
    requires
        a > 0,
        x % a == 0,
        y % a == 0,
    ensures
        (x + y) % a == 0,
        (x - y) % a == 0,
{
    lemma_fundamental_div_mod(x, a);
    lemma_fundamental_div_mod(y, a);
    let (p, q) = (x / a, y / a);
    assert(x + y == a * (p + q) && x - y == a * (p - q)) by (nonlinear_arith)
        requires
            x == a * p,
            y == a * q,
    ;
    lemma_mod_multiples_basic(p + q, a);
    lemma_mod_multiples_basic(p - q, a);
    lemma_mul_is_commutative(a, p + q);
    lemma_mul_is_commutative(a, p - q);
}

/// The greatest common divisor divides both arguments, and is positive
/// unless both are zero.
pub proof fn lemma_gcd_divides(a: nat, b: nat)
    ensures
        (a > 0 || b > 0) ==> gcd(a, b) > 0,
        gcd(a, b) > 0 ==> a % gcd(a, b) == 0 && b % gcd(a, b) == 0,
        gcd(a, b) == 0 ==> a == 0 && b == 0,
    decreases b,
{
    if b == 0 {
        if a > 0 {
            lemma_mod_self_0(a as int);
        }
    } else {
        lemma_gcd_divides(b, a % b);
        let g = gcd(a, b);
        assert(g == gcd(b, a % b));
        if g > 0 {
            lemma_fundamental_div_mod(a as int, b as int);
            lemma_mod_multiples_basic((a / b) as int, b as int);
            lemma_mul_is_commutative(b as int, (a / b) as int);
            lemma_divides_trans(g as int, b as int, (b * (a / b)) as int);
            lemma_divides_linear(g as int, (b * (a / b)) as int, (a % b) as int);
        }
    }
}

/// `n!` is positive and every `d` in `1..=n` divides it.
pub proof fn lemma_factorial_divisible(n: nat, d: int)
    requires
        1 <= d <= n,
    ensures
        (factorial(n) as int) % d == 0,
        factorial(n) >= 1,
    decreases n,
{
    lemma_factorial_positive(n);
    let f = factorial((n - 1) as nat);
    lemma_factorial_positive((n - 1) as nat);
    if d == n {
        lemma_mod_multiples_basic(f as int, n as int);
        lemma_mul_is_commutative(f as int, n as int);
    } else {
        lemma_factorial_divisible((n - 1) as nat, d);
        lemma_mod_multiples_basic(n as int, f as int);
        lemma_divides_trans(d, f as int, (n * f) as int);
        lemma_mul_is_commutative(n as int, f as int);
    }
}

/// `n!` is positive.
pub proof fn lemma_factorial_positive(n: nat)
    ensures
        factorial(n) >= 1,
    decreases n,
{
    if n > 0 {
        lemma_factorial_positive((n - 1) as nat);
        assert(n * factorial((n - 1) as nat) >= 1) by (nonlinear_arith)
            requires
                n >= 1,
                factorial((n - 1) as nat) >= 1,
        ;
    }
}

/// The least divisor of `m` that is at least `k`, when none below `k` but
/// above one divides `m`.
proof fn least_divisor_from(m: int, k: int) -> (d: int)
    requires
        2 <= k <= m,
        forall|j: int| 2 <= j < k ==> #[trigger] (m % j) != 0,
    ensures
        k <= d <= m,
        m % d == 0,
        forall|j: int| 2 <= j < d ==> #[trigger] (m % j) != 0,
    decreases m - k,
{
    if m % k == 0 {
        k
    } else {
        lemma_mod_self_0(m);
        least_divisor_from(m, k + 1)
    }
}

/// There is a prime above every natural number: the least divisor of
/// `n! + 1` above one.
pub proof fn lemma_prime_above(n: nat) -> (p: int)
    ensures
        p > n,
        is_prime(p),
{
    lemma_factorial_positive(n);
    let m = factorial(n) + 1int;
    let p = least_divisor_from(m, 2);
    assert forall|d: int| 2 <= d < p implies #[trigger] (p % d) != 0 by {
        if p % d == 0 {
            lemma_divides_trans(d, p, m);
        }
    }
    if p <= n {
        lemma_factorial_divisible(n, p);
        lemma_divides_linear(p, m, factorial(n) as int);
        assert(1int % p == 1) by {
            lemma_small_mod(1, p as nat);
        }
    }
    p
}

/// A divisor of `n` above its square root has a cofactor at most the square
/// root.
pub proof fn lemma_small_cofactor(n: int, d: int, s: int) -> (e: int)
    requires
        0 <= s,
        n < (s + 1) * (s + 1),
        s + 1 <= d < n,
        n % d == 0,
    ensures
        2 <= e <= s,
        n % e == 0,
{
    lemma_fundamental_div_mod(n, d);
    let e = n / d;
    assert(n == d * e);
    assert(2 <= e <= s) by (nonlinear_arith)
        requires
            n == d * e,
            s + 1 <= d < n,
            n < (s + 1) * (s + 1),
            0 <= s,
    ;
    lemma_mod_multiples_basic(d, e);
    lemma_mul_is_commutative(d, e);
    e
}

/// An even number does not divide an odd one.
pub proof fn lemma_odd_no_even_divisor(n: int, d: int)
    requires
        n % 2 == 1,
        d > 0,
        d % 2 == 0,
    ensures
        n % d != 0,
{
    if n % d == 0 {
        lemma_divides_trans(2, d, n);
    }
}

/// Powers of a negated base alternate in sign.
pub proof fn lemma_pow_neg(x: int, e: nat)
    ensures
        pow(-x, e) == (if e % 2 == 0 {
            pow(x, e)
        } else {
            -pow(x, e)
        }),
    decreases e,
{
    reveal(pow);
    if e > 0 {
        lemma_pow_neg(x, (e - 1) as nat);
        let p = pow(x, (e - 1) as nat);
        assert((-x) * p == -(x * p) && (-x) * (-p) == x * p) by (nonlinear_arith);
    }
}

/// Remainder of a negated number.
pub proof fn lemma_neg_mod(p: int, m: int)
    requires
        m > 0,
    ensures
        (-p) % m == (if p % m == 0 {
            0
        } else {
            m - p % m
        }),
{
    lemma_fundamental_div_mod(p, m);
    let q = p / m;
    let r = p % m;
    if r == 0 {
        assert(-p == m * (-q)) by (nonlinear_arith)
            requires
                p == m * q,
        ;
        lemma_mod_multiples_basic(-q, m);
        lemma_mul_is_commutative(m, -q);
    } else {
        assert(-p == m * (-q - 1) + (m - r)) by (nonlinear_arith)
            requires
                p == m * q + r,
        ;
        lemma_mod_multiples_vanish(-q - 1, m - r, m);
        lemma_small_mod((m - r) as nat, m as nat);
    }
}

/// `mod_floor(t, m)` is the one `y` congruent to `t` modulo `|m|` that lies
/// in `[0, m)` or `(m, 0]`.
pub proof fn lemma_mod_floor_of(t: int, y: int, m: int)
    requires
        m != 0,
        y % (abs(m) as int) == t % (abs(m) as int),
        m > 0 ==> 0 <= y < m,
        m < 0 ==> m < y <= 0,
    ensures
        mod_floor(t, m) == y,
{
    if m > 0 {
        lemma_small_mod(y as nat, m as nat);
    } else {
        let k = -m;
        lemma_neg_mod(t, k);
        lemma_neg_mod(y, k);
        lemma_small_mod((-y) as nat, k as nat);
    }
}

/// Adding a multiple of the modulus keeps the remainder.
pub proof fn lemma_mod_shift(x: int, a: int, m: int)
    requires
        m > 0,
    ensures
        (m * a + x) % m == x % m,
{
    lemma_mod_multiples_vanish(a, x, m);
}

/// Bits below position `k` and bits above it count separately.
pub proof fn lemma_popcount_shift(a: nat, c: nat, k: nat)
    requires
        c < pow2(k),
    ensures
        popcount(a * pow2(k) + c) == popcount(a) + popcount(c),
    decreases k,
{
    if k == 0 {
        lemma2_to64();
        assert(a * pow2(k) == a) by (nonlinear_arith)
            requires
                pow2(k) == 1,
        ;
    } else {
        lemma_pow2_unfold(k);
        let p = pow2((k - 1) as nat);
        let x = a * p;
        assert(a * pow2(k) == 2 * x) by (nonlinear_arith)
            requires
                pow2(k) == 2 * p,
                x == a * p,
        ;
        let n = a * pow2(k) + c;
        lemma_popcount_shift(a, c / 2, (k - 1) as nat);
        if n > 0 {
            assert(n / 2 == x + c / 2);
            assert(n % 2 == c % 2);
            assert(popcount(n) == n % 2 + popcount((x + c / 2) as nat));
        }
        if a == 0 {
            assert(x == 0) by (nonlinear_arith)
                requires
                    a == 0,
                    x == a * p,
            ;
        }
    }
}

/// There are no more one bits than binary digits.
pub proof fn lemma_popcount_le_bit_len(n: nat)
    ensures
        popcount(n) <= bit_len(n),
    decreases n,
{
    if n > 0 {
        lemma_popcount_le_bit_len(n / 2);
    }
}

/// A positive number has a one bit.
pub proof fn lemma_popcount_positive(n: nat)
    ensures
        n > 0 ==> popcount(n) >= 1,
    decreases n,
{
    if n > 0 {
        lemma_popcount_positive(n / 2);
    }
}

/// A positive number is a power of two exactly when it has one one bit.
pub proof fn lemma_popcount_one(n: nat)
    requires
        n > 0,
    ensures
        (popcount(n) == 1) == is_power_of_two(n),
    decreases n,
{
    lemma_popcount_positive(n / 2);
    assert(popcount(n) == n % 2 + popcount(n / 2));
    if n > 1 && n % 2 == 0 {
        lemma_popcount_one(n / 2);
    } else if n == 1 {
        assert(popcount(0) == 0);
    }
}

/// `2^(bit_len(n) - 1) <= n < 2^bit_len(n)` for a positive `n`.
pub proof fn lemma_bit_len_bounds(n: nat)
    requires
        n > 0,
    ensures
        bit_len(n) >= 1,
        pow2((bit_len(n) - 1) as nat) <= n < pow2(bit_len(n)),
    decreases n,
{
    let b = bit_len(n);
    assert(b == 1 + bit_len(n / 2));
    lemma_pow2_unfold(b);
    if n == 1 {
        assert(bit_len(0) == 0);
        lemma2_to64();
    } else {
        lemma_bit_len_bounds(n / 2);
        let c = bit_len(n / 2);
        assert(c == b - 1);
        lemma_pow2_unfold(c);
        assert(pow2(c) == 2 * pow2((c - 1) as nat));
        assert(pow2(b) == 2 * pow2(c));
    }
}

/// Every `2^k` is a power of two.
pub proof fn lemma_pow2_is_power_of_two(k: nat)
    ensures
        is_power_of_two(pow2(k)),
    decreases k,
{
    if k == 0 {
        lemma2_to64();
    } else {
        lemma_pow2_unfold(k);
        lemma_pow2_is_power_of_two((k - 1) as nat);
        lemma_pow2_pos((k - 1) as nat);
        assert(pow2(k) / 2 == pow2((k - 1) as nat));
    }
}

/// Multiplying by `2^k` adds `k` low zero bits.
pub proof fn lemma_low_zero_bits_shift(x: nat, k: nat)
    requires
        x > 0,
    ensures
        low_zero_bits(x * pow2(k)) == k + low_zero_bits(x),
    decreases k,
{
    if k == 0 {
        lemma2_to64();
        assert(x * pow2(k) == x) by (nonlinear_arith)
            requires
                pow2(k) == 1,
        ;
    } else {
        lemma_pow2_unfold(k);
        let p = pow2((k - 1) as nat);
        lemma_pow2_pos((k - 1) as nat);
        lemma_low_zero_bits_shift(x, (k - 1) as nat);
        let y = x * p;
        assert(x * pow2(k) == 2 * y && y > 0) by (nonlinear_arith)
            requires
                pow2(k) == 2 * p,
                y == x * p,
                x > 0,
                p > 0,
        ;
        assert((2 * y) as nat / 2 == y);
    }
}

/// Low zero bits of `y * 2^k + c` with `0 < c < 2^k` are those of `c`.
pub proof fn lemma_low_zero_bits_low(y: nat, c: nat, k: nat)
    requires
        0 < c < pow2(k),
    ensures
        low_zero_bits(y * pow2(k) + c) == low_zero_bits(c),
    decreases k,
{
    if k == 0 {
        lemma2_to64();
    } else {
        lemma_pow2_unfold(k);
        let p = pow2((k - 1) as nat);
        let x = y * p;
        assert(y * pow2(k) == 2 * x) by (nonlinear_arith)
            requires
                pow2(k) == 2 * p,
                x == y * p,
        ;
        let n = y * pow2(k) + c;
        if c % 2 == 0 {
            lemma_low_zero_bits_low(y, c / 2, (k - 1) as nat);
            assert(n / 2 == x + c / 2);
        }
    }
}

/// A positive number has fewer low zero bits than binary digits, and no more
/// than its value.
pub proof fn lemma_low_zero_bits_bounds(n: nat)
    requires
        n > 0,
    ensures
        low_zero_bits(n) < bit_len(n),
        low_zero_bits(n) <= n,
    decreases n,
{
    if n % 2 == 0 {
        lemma_low_zero_bits_bounds(n / 2);
    }
}

/// A prefix of big-endian bytes has no more one bits than the whole.
pub proof fn lemma_popcount_prefix(b: Seq<u8>, i: int)
    requires
        0 <= i <= b.len(),
    ensures
        popcount(be_value(b.subrange(0, i))) <= popcount(be_value(b)),
    decreases b.len() - i,
{
    if i < b.len() {
        lemma_popcount_prefix(b, i + 1);
        lemma_be_value_step(b, i);
        lemma2_to64();
        lemma_popcount_shift(be_value(b.subrange(0, i)), b[i] as nat, 8);
    } else {
        assert(b.subrange(0, i) =~= b);
    }
}

/// Appending one byte to a big-endian prefix.
pub proof fn lemma_be_value_step(b: Seq<u8>, i: int)
    requires
        0 <= i < b.len(),
    ensures
        be_value(b.subrange(0, i + 1)) == be_value(b.subrange(0, i)) * 256 + b[i] as nat,
{
    assert(b.subrange(0, i + 1).drop_last() =~= b.subrange(0, i));
}

} // verus!
