//! Number-theoretic specifications and general-purpose lemmas: greatest
//! common divisors, primality, truncating division, modular inverses, and
//! products over multisets.

use vstd::prelude::*;
use vstd::arithmetic::power::pow;
use vstd::multiset::Multiset;

verus! {

/// The greatest common divisor, by Euclid's recursion.
pub open spec fn gcd_nat(a: nat, b: nat) -> nat
    decreases b,
{
    if b == 0 {
        a
    } else {
        gcd_nat(b, a % b)
    }
}

/// `n` has no divisor strictly between 1 and itself.
pub open spec fn is_prime(n: nat) -> bool {
    n >= 2 && forall|d: nat| 1 < d < n ==> #[trigger] (n % d) != 0
}

/// Division that rounds toward zero, as big-integer libraries implement it.
pub open spec fn tdiv(a: int, b: int) -> int {
    let q = abs_int(a) / abs_int(b);
    if (a < 0) == (b < 0) {
        q
    } else {
        -q
    }
}

/// The absolute value of an integer.
pub open spec fn abs_int(a: int) -> int {
    if a < 0 {
        -a
    } else {
        a
    }
}

/// The value of a sign-and-magnitude pair.
pub open spec fn signed(neg: bool, mag: nat) -> int {
    if neg {
        -(mag as int)
    } else {
        mag as int
    }
}

/// `x` inverts `a` modulo `m`.
pub open spec fn is_inverse(a: nat, m: nat, x: nat) -> bool {
    x < m && (a * x) % m == 1nat % m
}

/// The modular inverse of `a` modulo `m`, when one exists.
pub open spec fn inv_mod(a: nat, m: nat) -> nat {
    choose|x: nat| is_inverse(a, m, x)
}

/// The factorial of `n`.
pub open spec fn fact(n: nat) -> nat
    decreases n,
{
    if n == 0 {
        1
    } else {
        n * fact((n - 1) as nat)
    }
}

/// The factorial of a machine-word argument grows by at most four bytes
/// per step.
pub proof fn lemma_fact_bound(n: nat)
    requires
        n <= 0xffff_ffff,
    ensures
        fact(n) < vstd::arithmetic::power::pow(256, 4 * n + 1),
    decreases n,
{
    if n == 0 {
        assert(vstd::arithmetic::power::pow(256, 1) == 256) by {
            vstd::arithmetic::power::lemma_pow1(256);
        }
    } else {
        lemma_fact_bound((n - 1) as nat);
        assert(vstd::arithmetic::power::pow(256, 4 * n + 1) == vstd::arithmetic::power::pow(
            256,
            4,
        ) * vstd::arithmetic::power::pow(256, (4 * (n - 1) + 1) as nat)) by {
            vstd::arithmetic::power::lemma_pow_adds(256, 4, (4 * (n - 1) + 1) as nat);
        }
        assert(vstd::arithmetic::power::pow(256, 2) == 65536) by {
            vstd::arithmetic::power::lemma_pow1(256);
            vstd::arithmetic::power::lemma_pow_adds(256, 1, 1);
        }
        vstd::arithmetic::power::lemma_pow_adds(256, 2, 2);
        assert(vstd::arithmetic::power::pow(256, 4) == 0x1_0000_0000) by (nonlinear_arith)
            requires
                vstd::arithmetic::power::pow(256, 4) == vstd::arithmetic::power::pow(256, 2)
                    * vstd::arithmetic::power::pow(256, 2),
                vstd::arithmetic::power::pow(256, 2) == 65536,
        ;
        assert(n * fact((n - 1) as nat) < 0x1_0000_0000 * vstd::arithmetic::power::pow(
            256,
            (4 * (n - 1) + 1) as nat,
        )) by (nonlinear_arith)
            requires
                0 < n <= 0xffff_ffff,
                fact((n - 1) as nat) < vstd::arithmetic::power::pow(256, (4 * (n - 1) + 1) as nat),
                vstd::arithmetic::power::pow(256, (4 * (n - 1) + 1) as nat) >= 1,
        ;
        vstd::arithmetic::power::lemma_pow_positive(256, (4 * (n - 1) + 1) as nat);
    }
}

/// The product of `f` over all elements of a multiset, with multiplicity.
pub open spec fn prod_ms<A>(m: Multiset<A>, f: spec_fn(A) -> int) -> int
    decreases m.len(),
{
    if m.len() == 0 {
        1
    } else {
        let x = m.choose();
        f(x) * prod_ms(m.remove(x), f)
    }
}

/// The greatest common divisor is symmetric in its arguments.
pub proof fn lemma_gcd_comm(a: nat, b: nat)
    ensures
        gcd_nat(a, b) == gcd_nat(b, a),
    decreases a + b,
{
    if b == 0 {
        if a == 0 {
        } else {
            assert(gcd_nat(b, a) == gcd_nat(a, b % a));
            assert(b % a == 0) by {
                vstd::arithmetic::div_mod::lemma_small_mod(0, a);
            }
        }
    } else if a == 0 {
        assert(gcd_nat(a, b) == gcd_nat(b, a % b));
        assert(a % b == 0) by {
            vstd::arithmetic::div_mod::lemma_small_mod(0, b);
        }
    } else if a == b {
        assert(a % b == 0) by {
            vstd::arithmetic::div_mod::lemma_mod_self_0(a as int);
        }
    } else if a < b {
        assert(a % b == a) by {
            vstd::arithmetic::div_mod::lemma_small_mod(a, b);
        }
        assert(gcd_nat(b, a) == gcd_nat(a, b % a));
    } else {
        assert(b % a == b) by {
            vstd::arithmetic::div_mod::lemma_small_mod(b, a);
        }
        assert(gcd_nat(a, b) == gcd_nat(b, a % b));
    }
}

/// One is coprime to everything.
pub proof fn lemma_gcd_one(m: nat)
    ensures
        gcd_nat(1, m) == 1,
{
    if m == 0 {
    } else if m == 1 {
        assert(gcd_nat(1, 1) == gcd_nat(1, 0));
    } else {
        assert(1nat % m == 1) by {
            vstd::arithmetic::div_mod::lemma_small_mod(1, m);
        }
        assert(gcd_nat(1, m) == gcd_nat(m, 1));
        assert(m % 1 == 0) by {
            vstd::arithmetic::div_mod::lemma_mod_multiples_basic(m as int, 1);
        }
        assert(gcd_nat(m, 1) == gcd_nat(1, 0));
    }
}

/// The greatest common divisor with zero is the other argument.
pub proof fn lemma_gcd_zero(m: nat)
    ensures
        gcd_nat(0, m) == m,
{
    if m == 0 {
    } else {
        assert(0nat % m == 0) by {
            vstd::arithmetic::div_mod::lemma_small_mod(0, m);
        }
        assert(gcd_nat(0, m) == gcd_nat(m, 0));
    }
}

/// A prime larger than two is odd.
pub proof fn lemma_prime_odd(p: nat)
    requires
        is_prime(p),
        p > 2,
    ensures
        p % 2 == 1,
{
    assert(p % 2 != 0);
    assert(p % 2 < 2) by {
        vstd::arithmetic::div_mod::lemma_mod_bound(p as int, 2);
    }
}

/// A product of odd factors is odd.
pub proof fn lemma_odd_mul(p: nat, q: nat)
    requires
        p % 2 == 1,
        q % 2 == 1,
    ensures
        (p * q) % 2 == 1,
{
    vstd::arithmetic::div_mod::lemma_mul_mod_noop_general(p as int, q as int, 2);
    assert((p * q) % 2 == ((p % 2) * (q % 2)) % 2);
}

/// A modular inverse is unique below the modulus.
pub proof fn lemma_inverse_unique(a: int, m: int, x1: int, x2: int)
    requires
        m > 0,
        0 <= x1 < m,
        0 <= x2 < m,
        (a * x1) % m == 1int % m,
        (a * x2) % m == 1int % m,
    ensures
        x1 == x2,
{
    assert((x1 * (a * x2)) % m == (x1 * ((a * x2) % m)) % m) by {
        vstd::arithmetic::div_mod::lemma_mul_mod_noop_right(x1, a * x2, m);
    }
    assert((x1 * (1int % m)) % m == (x1 * 1) % m) by {
        vstd::arithmetic::div_mod::lemma_mul_mod_noop_right(x1, 1, m);
    }
    assert((x2 * (a * x1)) % m == (x2 * ((a * x1) % m)) % m) by {
        vstd::arithmetic::div_mod::lemma_mul_mod_noop_right(x2, a * x1, m);
    }
    assert((x2 * (1int % m)) % m == (x2 * 1) % m) by {
        vstd::arithmetic::div_mod::lemma_mul_mod_noop_right(x2, 1, m);
    }
    assert(x1 * (a * x2) == x2 * (a * x1)) by (nonlinear_arith);
    assert(x1 % m == x1) by {
        vstd::arithmetic::div_mod::lemma_small_mod(x1 as nat, m as nat);
    }
    assert(x2 % m == x2) by {
        vstd::arithmetic::div_mod::lemma_small_mod(x2 as nat, m as nat);
    }
}

/// Whatever value the inverse wrapper returns equals `inv_mod`.
pub proof fn lemma_inv_mod_is(a: nat, m: nat, x: nat)
    requires
        m > 0,
        x < m,
        (a * x) % m == 1nat % m,
    ensures
        inv_mod(a, m) == x,
{
    assert(is_inverse(a, m, x));
    let y = inv_mod(a, m);
    assert(is_inverse(a, m, y));
    lemma_inverse_unique(a as int, m as int, x as int, y as int);
}

/// Multiplication of sign-and-magnitude pairs multiplies magnitudes and
/// combines signs.
pub proof fn lemma_signed_mul(aneg: bool, amag: nat, bneg: bool, bmag: nat)
    ensures
        signed(aneg, amag) * signed(bneg, bmag) == signed(aneg != bneg, amag * bmag),
{
    assert((amag as int) * (bmag as int) == (amag * bmag) as int);
    assert((-(amag as int)) * (bmag as int) == -((amag * bmag) as int)) by (nonlinear_arith);
    assert((amag as int) * (-(bmag as int)) == -((amag * bmag) as int)) by (nonlinear_arith);
    assert((-(amag as int)) * (-(bmag as int)) == (amag * bmag) as int) by (nonlinear_arith);
}

/// Truncating division tracks signs through magnitudes.
pub proof fn lemma_tdiv_signed(nneg: bool, nm: nat, dneg: bool, dm: nat)
    requires
        dm > 0,
    ensures
        tdiv(signed(nneg, nm), signed(dneg, dm)) == signed(nneg != dneg, nm / dm),
{
    vstd::arithmetic::div_mod::lemma_div_pos_is_pos(nm as int, dm as int);
    if nm == 0 {
        vstd::arithmetic::div_mod::lemma_small_div_converse(0, dm as int);
    }
}

/// Extending a multiset multiplies its product by the new element's factor.
pub proof fn lemma_prod_ms_insert<A>(m: Multiset<A>, f: spec_fn(A) -> int, x: A)
    ensures
        prod_ms(m.insert(x), f) == f(x) * prod_ms(m, f),
    decreases m.len(),
{
    broadcast use vstd::multiset::group_multiset_axioms;

    let m1 = m.insert(x);
    assert(m1.len() == m.len() + 1);
    let y = m1.choose();
    assert(m1.count(y) > 0);
    if y == x {
        assert(m1.remove(y) =~= m);
    } else {
        assert(m.count(y) > 0);
        assert(m1.remove(y) =~= m.remove(y).insert(x));
        assert(m.remove(y).len() < m.len());
        lemma_prod_ms_insert(m.remove(y), f, x);
        lemma_prod_ms_insert(m.remove(y), f, y);
        assert(m.remove(y).insert(y) =~= m);
        assert(prod_ms(m1, f) == f(y) * (f(x) * prod_ms(m.remove(y), f)));
        assert(prod_ms(m, f) == f(y) * prod_ms(m.remove(y), f));
        assert(f(y) * (f(x) * prod_ms(m.remove(y), f)) == f(x) * (f(y) * prod_ms(
            m.remove(y),
            f,
        ))) by (nonlinear_arith);
    }
}

/// Sequences with equal multisets have equal multisets of mapped values.
pub proof fn lemma_map_values_multiset<A, B>(s1: Seq<A>, s2: Seq<A>, f: spec_fn(A) -> B)
    requires
        s1.to_multiset() == s2.to_multiset(),
    ensures
        s1.map_values(f).to_multiset() == s2.map_values(f).to_multiset(),
    decreases s1.len(),
{
    broadcast use vstd::seq_lib::group_to_multiset_ensures;
    broadcast use vstd::multiset::group_multiset_axioms;

    assert(s1.len() == s1.to_multiset().len());
    assert(s2.len() == s2.to_multiset().len());
    if s1.len() == 0 {
        assert(s1.map_values(f) =~= Seq::<B>::empty());
        assert(s2.map_values(f) =~= Seq::<B>::empty());
    } else {
        let x = s1[0];
        assert(s1.contains(x));
        assert(s1.to_multiset().count(x) > 0);
        assert(s2.to_multiset().count(x) > 0);
        assert(s2.contains(x));
        let i = choose|i: int| 0 <= i < s2.len() && s2[i] == x;
        assert(s1.remove(0).to_multiset() == s1.to_multiset().remove(x));
        assert(s2.remove(i).to_multiset() == s2.to_multiset().remove(x));
        lemma_map_values_multiset(s1.remove(0), s2.remove(i), f);
        assert(s1.map_values(f).remove(0) =~= s1.remove(0).map_values(f));
        assert(s2.map_values(f).remove(i) =~= s2.remove(i).map_values(f));
        assert(s1.map_values(f).remove(0).to_multiset() == s1.map_values(f).to_multiset().remove(
            f(x),
        )) by {
            assert(s1.map_values(f)[0] == f(x));
        }
        assert(s2.map_values(f).remove(i).to_multiset() == s2.map_values(f).to_multiset().remove(
            f(x),
        )) by {
            assert(s2.map_values(f)[i] == f(x));
        }
        assert(s1.map_values(f).to_multiset().count(f(x)) > 0) by {
            assert(s1.map_values(f)[0] == f(x));
            assert(s1.map_values(f).contains(f(x)));
        }
        assert(s2.map_values(f).to_multiset().count(f(x)) > 0) by {
            assert(s2.map_values(f)[i] == f(x));
            assert(s2.map_values(f).contains(f(x)));
        }
        assert(s1.map_values(f).to_multiset() =~= s1.map_values(f).to_multiset().remove(f(x)).insert(
            f(x),
        ));
        assert(s2.map_values(f).to_multiset() =~= s2.map_values(f).to_multiset().remove(f(x)).insert(
            f(x),
        ));
    }
}

} // verus!
