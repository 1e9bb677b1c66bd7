//! The two-modulus Chinese Remainder solver used by key generation.

use vstd::prelude::*;
use crate::arith::{gcd_nat, lemma_gcd_comm};
use crate::bignum::{big_add, big_invert, big_mul, big_rem, BigUint};

verus! {

/// Solves the two-congruence Chinese Remainder system: the result is the
/// unique residue modulo `m1 * m2` congruent to `a1` modulo `m1` and to
/// `a2` modulo `m2`.
pub fn crt2(con1_a: &BigUint, con1_m: &BigUint, con2_a: &BigUint, con2_m: &BigUint) -> (r: BigUint)
    requires
        con1_m@ > 1,
        con2_m@ > 1,
        gcd_nat(con1_m@, con2_m@) == 1,
        con1_m.spec_digits().len() + con2_m.spec_digits().len() <= 0x3fff_ffff,
        con1_a.spec_digits().len() <= 0x3fff_ffff,
        con2_a.spec_digits().len() <= 0x3fff_ffff,
    ensures
        r@ % con1_m@ == con1_a@ % con1_m@,
        r@ % con2_m@ == con2_a@ % con2_m@,
        r@ < con1_m@ * con2_m@,
        r.wf(),
        r.spec_digits().len() <= con1_m.spec_digits().len() + con2_m.spec_digits().len(),
{
    let ghost m1 = con1_m@ as int;
    let ghost m2 = con2_m@ as int;
    let ghost a1 = con1_a@ as int;
    let ghost a2 = con2_a@ as int;
    proof {
        lemma_gcd_comm(con1_m@, con2_m@);
    }
    let i2 = match big_invert(con2_m, con1_m) {
        Some(x) => x,
        None => {
            proof {
                assert(false);
            }
            BigUint::from_u64(0)
        }
    };
    let i1 = match big_invert(con1_m, con2_m) {
        Some(x) => x,
        None => {
            proof {
                assert(false);
            }
            BigUint::from_u64(0)
        }
    };
    proof {
        i2.lemma_len_le_of_le(con1_m);
        i1.lemma_len_le_of_le(con2_m);
    }
    let i2m = big_mul(&i2, con2_m);
    let i1m = big_mul(&i1, con1_m);
    proof {
        crate::bignum::lemma_len_of_mul(&i2m, &i2, con2_m);
        crate::bignum::lemma_len_of_mul(&i1m, &i1, con1_m);
    }
    let t1 = big_mul(&i2m, con1_a);
    let t2 = big_mul(&i1m, con2_a);
    let mm = big_mul(con1_m, con2_m);
    proof {
        crate::bignum::lemma_len_of_mul(&t1, &i2m, con1_a);
        crate::bignum::lemma_len_of_mul(&t2, &i1m, con2_a);
        crate::bignum::lemma_len_of_mul(&mm, con1_m, con2_m);
        vstd::arithmetic::mul::lemma_mul_strictly_positive(m1, m2);
    }
    let sum = big_add(&t1, &t2);
    proof {
        crate::bignum::lemma_len_of_add(&sum, &t1, &t2);
    }
    let r = big_rem(&sum, &mm);
    proof {
        r.lemma_len_le_of_le(&mm);
    }
    proof {
        let x = t1@ + t2@ as int;
        let t1v = t1@ as int;
        let t2v = t2@ as int;
        let i1v = i1@ as int;
        let i2v = i2@ as int;
        assert(t1v == i2v * m2 * a1) by (nonlinear_arith)
            requires
                t1v == (i2v * m2) * a1,
        ;
        assert(t2v == i1v * m1 * a2) by (nonlinear_arith)
            requires
                t2v == (i1v * m1) * a2,
        ;
        vstd::arithmetic::div_mod::lemma_mod_mod(x as int, m1, m2);
        vstd::arithmetic::div_mod::lemma_mod_mod(x as int, m2, m1);
        assert(m2 * m1 == m1 * m2) by (nonlinear_arith);
        assert(x % (m1 * m2) == r@);
        vstd::arithmetic::div_mod::lemma_add_mod_noop(t1v, t2v, m1);
        vstd::arithmetic::div_mod::lemma_add_mod_noop(t1v, t2v, m2);
        assert(t2v % m1 == 0) by {
            assert(t2v == (i1v * a2) * m1) by (nonlinear_arith)
                requires
                    t2v == i1v * m1 * a2,
            ;
            vstd::arithmetic::div_mod::lemma_mod_multiples_basic(i1v * a2, m1);
        }
        assert(t1v % m2 == 0) by {
            assert(t1v == (i2v * a1) * m2) by (nonlinear_arith)
                requires
                    t1v == i2v * m2 * a1,
            ;
            vstd::arithmetic::div_mod::lemma_mod_multiples_basic(i2v * a1, m2);
        }
        assert(t1v % m1 == a1 % m1) by {
            vstd::arithmetic::div_mod::lemma_mul_mod_noop_left(i2v * m2, a1, m1);
            assert(i2v * m2 == m2 * i2v) by (nonlinear_arith);
            assert((m2 * i2v) % m1 == 1int % m1) by {
                assert((con2_m@ * i2@) % con1_m@ == 1nat % con1_m@);
            }
            assert(t1v == (i2v * m2) * a1) by (nonlinear_arith)
                requires
                    t1v == i2v * m2 * a1,
            ;
            vstd::arithmetic::div_mod::lemma_mul_mod_noop_left(1, a1, m1);
            vstd::arithmetic::div_mod::lemma_mod_twice(a1, m1);
        }
        assert(t2v % m2 == a2 % m2) by {
            vstd::arithmetic::div_mod::lemma_mul_mod_noop_left(i1v * m1, a2, m2);
            assert(i1v * m1 == m1 * i1v) by (nonlinear_arith);
            assert((m1 * i1v) % m2 == 1int % m2) by {
                assert((con1_m@ * i1@) % con2_m@ == 1nat % con2_m@);
            }
            assert(t2v == (i1v * m1) * a2) by (nonlinear_arith)
                requires
                    t2v == i1v * m1 * a2,
            ;
            vstd::arithmetic::div_mod::lemma_mul_mod_noop_left(1, a2, m2);
            vstd::arithmetic::div_mod::lemma_mod_twice(a2, m2);
        }
        assert((x % (m1 * m2)) % m1 == x % m1);
        assert(x == t1v + t2v);
        assert(x % m1 == ((t1v % m1) + (t2v % m1)) % m1);
        vstd::arithmetic::div_mod::lemma_mod_twice(a1, m1);
        vstd::arithmetic::div_mod::lemma_mod_twice(a2, m2);
        vstd::arithmetic::div_mod::lemma_mod_bound(x as int, m1 * m2);
    }
    r
}

} // verus!
