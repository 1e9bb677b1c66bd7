//! Randomness and prime generation, backed by openssl's CSPRNG.

use vstd::prelude::*;
use vstd::arithmetic::power2::pow2;
use crate::Error;
use crate::arith::{gcd_nat, is_prime, lemma_gcd_one, lemma_gcd_zero};
use crate::bignum::{big_div, big_eq, big_gcd, big_sub, BigUint};

verus! {

/// A handle to the process-wide cryptographically secure random number
/// generator. Callers pass one to every operation that draws randomness.
pub struct Rng {}

impl Rng {
    /// Creates a handle to the random number generator.
    pub fn new() -> Rng {
        Rng {}
    }
}

/// Relies on openssl's `BN_rand_range` (`BigNumRef::rand_range`): a
/// uniform random value below the positive bound.
#[verifier::external_body]
pub fn random_below(n: &BigUint, rng: &mut Rng) -> (r: BigUint)
    requires
        n.spec_digits().len() < 0x8000_0000,
        n@ > 0,
    ensures
        r@ < n@,
        r.wf(),
{
    let mut nv = n.digits().clone();
    nv.reverse();
    let bound = openssl::bn::BigNum::from_slice(&nv).expect("bignum");
    let mut z = openssl::bn::BigNum::new().expect("bignum");
    bound.rand_range(&mut z).expect("bignum");
    let mut rv = z.to_vec();
    rv.reverse();
    BigUint::from_digits(rv)
}

/// Relies on openssl's `BN_generate_prime_ex`
/// (`BigNumRef::generate_prime` with `safe` set): on success the result is
/// a safe prime of at least the requested bit length.
#[verifier::external_body]
fn os_generate_safe_prime(bits: u32) -> (r: Result<BigUint, Error>)
    requires
        3 <= bits <= 0x7fff_ffff,
    ensures
        r matches Ok(p) ==> {
            &&& is_prime(p@)
            &&& is_prime(((p@ - 1) / 2) as nat)
            &&& p@ >= pow2((bits - 1) as nat)
            &&& p.wf()
        },
        r matches Err(e) ==> e == Error::PrimeGen,
{
    let mut sp = match openssl::bn::BigNum::new() {
        Ok(b) => b,
        Err(_) => {
            return Err(Error::PrimeGen);
        }
    };
    if sp.generate_prime(bits as i32, true, None, None).is_err() {
        return Err(Error::PrimeGen);
    }
    let mut rv = sp.to_vec();
    rv.reverse();
    Ok(BigUint::from_digits(rv))
}

/// Draws a safe prime `p` of at least `bits` bits and returns it together
/// with `(p - 1) / 2`, which is prime as well. A prime wildly larger than
/// any the backend can take back as an operand is rejected as a
/// generation failure, so both results stay within the arithmetic
/// backend's operand cap.
pub fn generate_safe_prime(bits: u32) -> (r: Result<(BigUint, BigUint), Error>)
    requires
        3 <= bits <= 0x7fff_ffff,
    ensures
        r matches Ok(pp) ==> {
            &&& is_prime(pp.0@)
            &&& is_prime(pp.1@)
            &&& pp.1@ == (pp.0@ - 1) / 2
            &&& pp.0@ % 2 == 1
            &&& pp.0@ >= 5
            &&& pp.0@ >= pow2((bits - 1) as nat)
            &&& pp.0.wf()
            &&& pp.1.wf()
            &&& pp.0.spec_digits().len() <= 0x0fff_ffff
            &&& pp.1.spec_digits().len() <= 0x0fff_ffff
        },
        r matches Err(e) ==> e == Error::PrimeGen,
{
    let p = match os_generate_safe_prime(bits) {
        Ok(p) => p,
        Err(e) => {
            return Err(e);
        }
    };
    if p.digits().len() > 0x0fff_ffff {
        return Err(Error::PrimeGen);
    }
    let one = BigUint::from_u64(1);
    let two = BigUint::from_u64(2);
    let pm1 = big_sub(&p, &one);
    proof {
        pm1.lemma_len_le_of_le(&p);
    }
    let p1 = big_div(&pm1, &two);
    proof {
        p1.lemma_len_le_of_le(&p);
        vstd::arithmetic::div_mod::lemma_fundamental_div_mod(p@ - 1, 2);
        vstd::arithmetic::div_mod::lemma_mod_bound(p@ - 1, 2);
        assert(p@ - 1 >= 2 * ((p@ - 1) / 2));
        crate::arith::lemma_prime_odd(p@);
    }
    Ok((p, p1))
}

/// Draws a uniform element of the multiplicative group modulo `op` by
/// rejection sampling on the gcd. The sampling budget exists only to give
/// the loop a termination measure; it runs out after `u64::MAX` failed
/// draws, which no execution reaches, and only then hands back the
/// group's identity so that the contract stays total.
pub fn random_in_mult_group(op: &BigUint, rng: &mut Rng) -> (r: BigUint)
    requires
        op.spec_digits().len() < 0x8000_0000,
        op@ > 1,
    ensures
        1 <= r@ < op@,
        gcd_nat(r@, op@) == 1,
        r.wf(),
        r.spec_digits().len() <= op.spec_digits().len(),
{
    let one = BigUint::from_u64(1);
    let mut tries: u64 = 0;
    while tries < 0xffff_ffff_ffff_ffff
        invariant
            op.spec_digits().len() < 0x8000_0000,
            op@ > 1,
            one@ == 1,
            one.wf(),
            one.spec_digits().len() <= 8,
        decreases 0xffff_ffff_ffff_ffff - tries,
    {
        let res = random_below(op, rng);
        proof {
            res.lemma_len_le_of_le(op);
        }
        let g = big_gcd(&res, op);
        if big_eq(&g, &one) {
            proof {
                if res@ == 0 {
                    lemma_gcd_zero(op@);
                }
            }
            return res;
        }
        tries = tries + 1;
    }
    proof {
        lemma_gcd_one(op@);
        one.lemma_len_le_of_le(op);
    }
    one
}

} // verus!
