//! Magnitudes as little-endian base-2^32 limbs, and the arithmetic on them
//! that `num_bigint::BigUint` performs.
use num_bigint::BigUint;
use std::cmp::Ordering;
use crate::theory::{
    be_value, bit_len, decimal_digits, decimal_value, gcd, is_digit, lcm,
};
use vstd::arithmetic::power::pow;
use vstd::prelude::*;

verus! {

/// The radix of one limb.
pub open spec fn limb_base() -> nat {
    0x1_0000_0000
}

/// The natural number denoted by little-endian limbs.
pub open spec fn limbs_value(d: Seq<u32>) -> nat
    decreases d.len(),
{
    if d.len() == 0 {
        0
    } else {
        d[0] as nat + limb_base() * limbs_value(d.drop_first())
    }
}

/// No superfluous most-significant zero limb.
pub open spec fn is_canonical(d: Seq<u32>) -> bool {
    d.len() == 0 || d.last() != 0
}

/// A canonical limb sequence denotes zero exactly when it is empty.
pub proof fn lemma_canonical_zero(d: Seq<u32>)
    requires
        is_canonical(d),
    ensures
        (limbs_value(d) == 0) <==> (d.len() == 0),
    decreases d.len(),
{
    if d.len() > 0 {
        let rest = d.drop_first();
        if rest.len() > 0 {
            assert(rest.last() == d.last());
            lemma_canonical_zero(rest);
        } else {
            assert(d[0] == d.last());
        }
    }
}

/// Relies on `Add` for `BigUint`: the exact sum, with normalised limbs.
#[verifier::external_body]
pub(crate) fn limbs_add(a: &Vec<u32>, b: &Vec<u32>) -> (r: Vec<u32>)
    ensures
        is_canonical(r@),
        limbs_value(r@) == limbs_value(a@) + limbs_value(b@),
{
    (BigUint::from_slice(a) + BigUint::from_slice(b)).to_u32_digits()
}

/// Relies on `Sub` for `BigUint`: the exact difference, which panics on
/// underflow, hence the precondition.
#[verifier::external_body]
pub(crate) fn limbs_sub(a: &Vec<u32>, b: &Vec<u32>) -> (r: Vec<u32>)
    requires
        limbs_value(a@) >= limbs_value(b@),
    ensures
        is_canonical(r@),
        limbs_value(r@) == limbs_value(a@) - limbs_value(b@),
{
    (BigUint::from_slice(a) - BigUint::from_slice(b)).to_u32_digits()
}

/// Relies on `Mul` for `BigUint`: the exact product.
#[verifier::external_body]
pub(crate) fn limbs_mul(a: &Vec<u32>, b: &Vec<u32>) -> (r: Vec<u32>)
    ensures
        is_canonical(r@),
        limbs_value(r@) == limbs_value(a@) * limbs_value(b@),
{
    (BigUint::from_slice(a) * BigUint::from_slice(b)).to_u32_digits()
}

/// Relies on `num_integer::Integer::div_rem` for `BigUint`: floor quotient
/// and remainder, panicking on a zero divisor.
#[verifier::external_body]
pub(crate) fn limbs_div_rem(a: &Vec<u32>, b: &Vec<u32>) -> (r: (Vec<u32>, Vec<u32>))
    requires
        limbs_value(b@) > 0,
    ensures
        is_canonical(r.0@),
        is_canonical(r.1@),
        limbs_value(r.0@) == limbs_value(a@) / limbs_value(b@),
        limbs_value(r.1@) == limbs_value(a@) % limbs_value(b@),
{
    let (q, m) = num_integer::Integer::div_rem(&BigUint::from_slice(a), &BigUint::from_slice(b));
    (q.to_u32_digits(), m.to_u32_digits())
}

/// Relies on `Ord::cmp` for `BigUint`: the order of the values.
#[verifier::external_body]
pub(crate) fn limbs_cmp(a: &Vec<u32>, b: &Vec<u32>) -> (r: Ordering)
    ensures
        (r == Ordering::Less) <==> limbs_value(a@) < limbs_value(b@),
        (r == Ordering::Equal) <==> limbs_value(a@) == limbs_value(b@),
        (r == Ordering::Greater) <==> limbs_value(a@) > limbs_value(b@),
{
    BigUint::from_slice(a).cmp(&BigUint::from_slice(b))
}

/// Relies on `num_traits::Pow<u64>` for `BigUint`: the exact power.
#[verifier::external_body]
pub(crate) fn limbs_pow(a: &Vec<u32>, e: u64) -> (r: Vec<u32>)
    ensures
        is_canonical(r@),
        limbs_value(r@) == pow(limbs_value(a@) as int, e as nat),
{
    num_traits::Pow::pow(BigUint::from_slice(a), e).to_u32_digits()
}

/// Relies on `num_integer::Integer::gcd` for `BigUint`: the greatest common
/// divisor, which is the other argument when one of them is zero.
#[verifier::external_body]
pub(crate) fn limbs_gcd(a: &Vec<u32>, b: &Vec<u32>) -> (r: Vec<u32>)
    ensures
        is_canonical(r@),
        limbs_value(r@) == gcd(limbs_value(a@), limbs_value(b@)),
{
    num_integer::Integer::gcd(&BigUint::from_slice(a), &BigUint::from_slice(b)).to_u32_digits()
}

/// Relies on `num_integer::Integer::lcm` for `BigUint`: the least common
/// multiple, zero when either argument is zero.
#[verifier::external_body]
pub(crate) fn limbs_lcm(a: &Vec<u32>, b: &Vec<u32>) -> (r: Vec<u32>)
    ensures
        is_canonical(r@),
        limbs_value(r@) == lcm(limbs_value(a@), limbs_value(b@)),
{
    num_integer::Integer::lcm(&BigUint::from_slice(a), &BigUint::from_slice(b)).to_u32_digits()
}

/// Relies on `BigUint::modpow`: `(a ^ e) % m`. It panics on a zero modulus;
/// a modulus of one is handled by the caller.
#[verifier::external_body]
pub(crate) fn limbs_modpow(a: &Vec<u32>, e: &Vec<u32>, m: &Vec<u32>) -> (r: Vec<u32>)
    requires
        limbs_value(m@) > 1,
    ensures
        is_canonical(r@),
        limbs_value(r@) == pow(limbs_value(a@) as int, limbs_value(e@)) % (limbs_value(
            m@,
        ) as int),
{
    BigUint::from_slice(a).modpow(&BigUint::from_slice(e), &BigUint::from_slice(m)).to_u32_digits()
}

/// Relies on `BigUint::modinv`: the inverse in `[0, m)`, present exactly when
/// `gcd(a, m) == 1`. It panics on a zero modulus.
#[verifier::external_body]
pub(crate) fn limbs_modinv(a: &Vec<u32>, m: &Vec<u32>) -> (r: Option<Vec<u32>>)
    requires
        limbs_value(m@) > 0,
    ensures
        r is Some <==> gcd(limbs_value(a@), limbs_value(m@)) == 1,
        r matches Some(x) ==> {
            &&& is_canonical(x@)
            &&& limbs_value(x@) < limbs_value(m@)
            &&& ((limbs_value(a@) * limbs_value(x@)) as int) % (limbs_value(m@) as int) == 1int
                % (limbs_value(m@) as int)
        },
{
    match BigUint::from_slice(a).modinv(&BigUint::from_slice(m)) {
        Some(x) => Some(x.to_u32_digits()),
        None => None,
    }
}

/// Relies on `BigUint::parse_bytes` in radix ten, which accepts any non-empty
/// run of ASCII digits.
#[verifier::external_body]
pub(crate) fn limbs_parse_decimal(s: &[u8]) -> (r: Option<Vec<u32>>)
    requires
        s@.len() > 0,
        forall|i: int| 0 <= i < s@.len() ==> is_digit(#[trigger] s@[i]),
    ensures
        r is Some,
        is_canonical(r->0@),
        limbs_value(r->0@) == decimal_value(s@),
{
    match BigUint::parse_bytes(s, 10) {
        Some(x) => Some(x.to_u32_digits()),
        None => None,
    }
}

/// Relies on `BigUint::to_str_radix` in radix ten: the canonical decimal
/// digits, `"0"` for zero.
#[verifier::external_body]
pub(crate) fn limbs_to_decimal(a: &Vec<u32>) -> (r: String)
    ensures
        r@ == decimal_digits(limbs_value(a@)),
{
    BigUint::from_slice(a).to_str_radix(10)
}

/// Relies on `BigUint::from_bytes_be`: the value of big-endian bytes.
#[verifier::external_body]
pub(crate) fn limbs_from_bytes_be(b: &[u8]) -> (r: Vec<u32>)
    ensures
        is_canonical(r@),
        limbs_value(r@) == be_value(b@),
{
    BigUint::from_bytes_be(b).to_u32_digits()
}

/// Relies on `BigUint::to_bytes_be`: big-endian bytes without a leading zero
/// byte, and the single byte `0` for zero.
#[verifier::external_body]
pub(crate) fn limbs_to_bytes_be(a: &Vec<u32>) -> (r: Vec<u8>)
    ensures
        be_value(r@) == limbs_value(a@),
        r@.len() > 0,
        limbs_value(a@) == 0 ==> r@ == seq![0u8],
        limbs_value(a@) > 0 ==> r@[0] != 0,
{
    BigUint::from_slice(a).to_bytes_be()
}

/// Relies on `BigUint::bits`: the number of binary digits.
#[verifier::external_body]
pub(crate) fn limbs_bits(a: &Vec<u32>) -> (r: u64)
    ensures
        r == bit_len(limbs_value(a@)),
{
    BigUint::from_slice(a).bits()
}

} // verus!
