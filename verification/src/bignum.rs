//! Arbitrary-precision non-negative integers, stored as base-256 digit
//! vectors with the least significant digit first.
//!
//! The arithmetic itself is delegated to openssl's `BigNum`; each
//! operation is a small trusted wrapper whose contract states the
//! mathematical result over the digit-vector view. Everything built on top
//! of the wrappers is verified. openssl aborts on byte strings of `2^31`
//! bytes or more, so every wrapper requires its operands' digit vectors
//! to stay below that cap.

use vstd::prelude::*;
use vstd::arithmetic::power::pow;

verus! {

/// The value of a little-endian base-256 digit sequence.
pub open spec fn nat_of_digits(s: Seq<u8>) -> nat
    decreases s.len(),
{
    if s.len() == 0 {
        0
    } else {
        (s[0] + 256 * nat_of_digits(s.skip(1))) as nat
    }
}

/// An arbitrary-precision non-negative integer.
///
/// `digits` holds the base-256 digits, least significant first. The
/// canonical form has no most-significant zero digit, so zero is the empty
/// vector; all operations produce canonical results.
#[derive(Debug, PartialEq, Eq)]
pub struct BigUint {
    digits: Vec<u8>,
}

impl View for BigUint {
    type V = nat;

    closed spec fn view(&self) -> nat {
        nat_of_digits(self.digits@)
    }
}

impl BigUint {
    /// The digit vector is canonical: no most-significant zero digit.
    pub closed spec fn wf(&self) -> bool {
        self.digits@.len() == 0 || self.digits@.last() != 0
    }

    /// The digit sequence, least significant first.
    pub closed spec fn spec_digits(&self) -> Seq<u8> {
        self.digits@
    }

    /// A digit vector lives in memory, so its length is bounded by the
    /// machine word and in particular fits the wire format's length
    /// prefix.
    pub proof fn lemma_digits_len_bound(&self)
        ensures
            self.spec_digits().len() <= 0xffff_ffff_ffff_ffff,
    {
        broadcast use vstd::std_specs::vec::axiom_spec_len;

        assert(vstd::std_specs::vec::spec_vec_len(&self.digits) == self.digits@.len());
    }

    /// A canonical value below `256^l` has at most `l` digits.
    pub proof fn lemma_len_le_of_value(&self, l: nat)
        requires
            self.wf(),
            self@ < pow(256, l),
        ensures
            self.spec_digits().len() <= l,
    {
        if self.digits@.len() > l {
            lemma_canonical_lower(self.digits@);
            vstd::arithmetic::power::lemma_pow_increases(256, l, (self.digits@.len() - 1) as nat);
        }
    }

    /// A canonical value no larger than another value has no more digits
    /// than the other value's representation.
    pub proof fn lemma_len_le_of_le(&self, other: &BigUint)
        requires
            self.wf(),
            self@ <= other@,
        ensures
            self.spec_digits().len() <= other.spec_digits().len(),
    {
        lemma_nat_of_digits_upper(other.spec_digits());
        other.lemma_view_is_digits();
        self.lemma_len_le_of_value(other.spec_digits().len());
    }

    /// Canonical form is a property of the digit sequence alone.
    pub proof fn lemma_wf_is_digits(&self)
        ensures
            self.wf() == (self.spec_digits().len() == 0 || self.spec_digits().last() != 0),
    {
    }

    /// The value of a `BigUint` is the value of its digits.
    pub proof fn lemma_view_is_digits(&self)
        ensures
            self@ == nat_of_digits(self.spec_digits()),
    {
    }

    /// Whether the digit vector is canonical, as `wf` demands.
    pub fn is_canonical(&self) -> (r: bool)
        ensures
            r == self.wf(),
    {
        let n = self.digits.len();
        n == 0 || *vstd::slice::slice_index_get(self.digits.as_slice(), n - 1) != 0
    }

    /// Builds a big integer from a little-endian digit vector.
    pub fn from_digits(digits: Vec<u8>) -> (r: Self)
        ensures
            r@ == nat_of_digits(digits@),
            r.spec_digits() == digits@,
    {
        BigUint { digits }
    }

    /// A fresh copy of the little-endian digit vector.
    pub fn to_digits_vec(&self) -> (r: Vec<u8>)
        ensures
            r@ == self.spec_digits(),
    {
        let mut digits: Vec<u8> = Vec::new();
        let mut i: usize = 0;
        while i < self.digits.len()
            invariant
                0 <= i <= self.digits@.len(),
                digits@ == self.digits@.subrange(0, i as int),
            decreases self.digits@.len() - i,
        {
            digits.push(self.digits[i]);
            proof {
                assert(digits@ =~= self.digits@.subrange(0, i + 1));
            }
            i = i + 1;
        }
        proof {
            assert(digits@ =~= self.digits@);
        }
        digits
    }

    /// The little-endian digit vector, by reference.
    pub fn digits(&self) -> (r: &Vec<u8>)
        ensures
            r@ == self.spec_digits(),
            nat_of_digits(r@) == self@,
    {
        &self.digits
    }

    /// Builds the canonical digit vector of a machine integer.
    pub fn from_u64(v: u64) -> (r: Self)
        ensures
            r@ == v,
            r.wf(),
            r.spec_digits().len() <= 8,
    {
        let mut digits: Vec<u8> = Vec::new();
        let mut x: u64 = v;
        proof {
            vstd::arithmetic::power::lemma_pow0(256);
        }
        while x > 0
            invariant
                nat_of_digits(digits@) + x * pow(256, digits@.len() as nat) == v,
                x == 0 && digits@.len() > 0 ==> digits@.last() != 0,
            decreases x,
        {
            let ghost old_digits = digits@;
            let ghost old_x = x;
            let d: u8 = (x % 256) as u8;
            digits.push(d);
            x = x / 256;
            proof {
                lemma_nat_of_digits_push(old_digits, d);
                vstd::arithmetic::power::lemma_pow1(256);
                vstd::arithmetic::power::lemma_pow_adds(256, old_digits.len() as nat, 1);
                assert(pow(256, digits@.len() as nat) == pow(256, old_digits.len() as nat) * 256);
                assert(old_x == 256 * x + d);
                vstd::arithmetic::power::lemma_pow_positive(256, old_digits.len() as nat);
                assert(nat_of_digits(digits@) + x * pow(256, digits@.len() as nat) == v)
                    by (nonlinear_arith)
                    requires
                        nat_of_digits(old_digits) + old_x * pow(256, old_digits.len() as nat) == v,
                        nat_of_digits(digits@) == nat_of_digits(old_digits) + d * pow(
                            256,
                            old_digits.len() as nat,
                        ),
                        pow(256, digits@.len() as nat) == pow(256, old_digits.len() as nat) * 256,
                        old_x == 256 * x + d,
                        pow(256, old_digits.len() as nat) >= 0,
                ;
            }
        }
        let r = BigUint { digits };
        proof {
            assert(pow(256, 2) == 65536) by {
                vstd::arithmetic::power::lemma_pow1(256);
                vstd::arithmetic::power::lemma_pow_adds(256, 1, 1);
            }
            vstd::arithmetic::power::lemma_pow_adds(256, 2, 2);
            vstd::arithmetic::power::lemma_pow_adds(256, 4, 4);
            assert(pow(256, 4) == 0x1_0000_0000);
            assert(pow(256, 8) == 0x1_0000_0000_0000_0000) by (nonlinear_arith)
                requires
                    pow(256, 8) == pow(256, 4) * pow(256, 4),
                    pow(256, 4) == 0x1_0000_0000,
            ;
            r.lemma_len_le_of_value(8);
        }
        r
    }

    /// Builds the canonical digit vector of a wide machine integer.
    pub fn from_u128(v: u128) -> (r: Self)
        ensures
            r@ == v,
            r.wf(),
            r.spec_digits().len() <= 16,
    {
        let mut digits: Vec<u8> = Vec::new();
        let mut x: u128 = v;
        proof {
            vstd::arithmetic::power::lemma_pow0(256);
        }
        while x > 0
            invariant
                nat_of_digits(digits@) + x * pow(256, digits@.len() as nat) == v,
                x == 0 && digits@.len() > 0 ==> digits@.last() != 0,
            decreases x,
        {
            let ghost old_digits = digits@;
            let ghost old_x = x;
            let d: u8 = (x % 256) as u8;
            digits.push(d);
            x = x / 256;
            proof {
                lemma_nat_of_digits_push(old_digits, d);
                vstd::arithmetic::power::lemma_pow1(256);
                vstd::arithmetic::power::lemma_pow_adds(256, old_digits.len() as nat, 1);
                assert(pow(256, digits@.len() as nat) == pow(256, old_digits.len() as nat) * 256);
                assert(old_x == 256 * x + d);
                vstd::arithmetic::power::lemma_pow_positive(256, old_digits.len() as nat);
                assert(nat_of_digits(digits@) + x * pow(256, digits@.len() as nat) == v)
                    by (nonlinear_arith)
                    requires
                        nat_of_digits(old_digits) + old_x * pow(256, old_digits.len() as nat) == v,
                        nat_of_digits(digits@) == nat_of_digits(old_digits) + d * pow(
                            256,
                            old_digits.len() as nat,
                        ),
                        pow(256, digits@.len() as nat) == pow(256, old_digits.len() as nat) * 256,
                        old_x == 256 * x + d,
                        pow(256, old_digits.len() as nat) >= 0,
                ;
            }
        }
        let r = BigUint { digits };
        proof {
            assert(pow(256, 2) == 65536) by {
                vstd::arithmetic::power::lemma_pow1(256);
                vstd::arithmetic::power::lemma_pow_adds(256, 1, 1);
            }
            vstd::arithmetic::power::lemma_pow_adds(256, 2, 2);
            vstd::arithmetic::power::lemma_pow_adds(256, 4, 4);
            vstd::arithmetic::power::lemma_pow_adds(256, 8, 8);
            assert(pow(256, 4) == 0x1_0000_0000);
            assert(pow(256, 8) == 0x1_0000_0000_0000_0000) by (nonlinear_arith)
                requires
                    pow(256, 8) == pow(256, 4) * pow(256, 4),
                    pow(256, 4) == 0x1_0000_0000,
            ;
            assert(pow(256, 16) == 0x1_0000_0000_0000_0000_0000_0000_0000_0000)
                by (nonlinear_arith)
                requires
                    pow(256, 16) == pow(256, 8) * pow(256, 8),
                    pow(256, 8) == 0x1_0000_0000_0000_0000,
            ;
            r.lemma_len_le_of_value(16);
        }
        r
    }
}

impl Clone for BigUint {
    /// Copies the digit vector, and with it the value, exactly.
    fn clone(&self) -> (r: Self)
        ensures
            r@ == self@,
            r.wf() == self.wf(),
            r.spec_digits() == self.spec_digits(),
    {
        let mut digits: Vec<u8> = Vec::new();
        let mut i: usize = 0;
        while i < self.digits.len()
            invariant
                0 <= i <= self.digits@.len(),
                digits@ == self.digits@.subrange(0, i as int),
            decreases self.digits@.len() - i,
        {
            digits.push(self.digits[i]);
            proof {
                assert(digits@ =~= self.digits@.subrange(0, i + 1));
            }
            i = i + 1;
        }
        proof {
            assert(digits@ =~= self.digits@);
        }
        BigUint { digits }
    }
}

/// Appending a most-significant digit adds its weighted value.
pub proof fn lemma_nat_of_digits_push(s: Seq<u8>, d: u8)
    ensures
        nat_of_digits(s.push(d)) == nat_of_digits(s) + d * pow(256, s.len() as nat),
    decreases s.len(),
{
    vstd::arithmetic::power::lemma_pow_positive(256, s.len() as nat);
    if s.len() == 0 {
        assert(s.push(d) =~= seq![d]);
        assert(s.push(d).skip(1) =~= Seq::<u8>::empty());
        vstd::arithmetic::power::lemma_pow0(256);
        assert(s.push(d)[0] == d);
        assert(s.push(d).skip(1).len() == 0);
        assert(nat_of_digits(s.push(d).skip(1)) == 0);
        assert(nat_of_digits(s.push(d)) == d);
        assert(nat_of_digits(s) + d * pow(256, s.len() as nat) == d);
    } else {
        assert(s.push(d).skip(1) =~= s.skip(1).push(d));
        lemma_nat_of_digits_push(s.skip(1), d);
        assert(pow(256, s.len() as nat) == 256 * pow(256, (s.len() - 1) as nat)) by {
            vstd::arithmetic::power::lemma_pow1(256);
            vstd::arithmetic::power::lemma_pow_adds(256, 1, (s.len() - 1) as nat);
        }
        assert(256 * (nat_of_digits(s.skip(1)) + d * pow(256, (s.len() - 1) as nat)) == 256
            * nat_of_digits(s.skip(1)) + d * (256 * pow(256, (s.len() - 1) as nat)))
            by (nonlinear_arith);
        assert(s.push(d)[0] == s[0]);
        assert(s.push(d).len() == s.len() + 1);
        assert(nat_of_digits(s.push(d)) == (s[0] + 256 * nat_of_digits(s.skip(1).push(d))) as nat);
        assert(nat_of_digits(s) == (s[0] + 256 * nat_of_digits(s.skip(1))) as nat);
        assert(nat_of_digits(s.skip(1).push(d)) == nat_of_digits(s.skip(1)) + d * pow(
            256,
            s.skip(1).len() as nat,
        ));
        assert(s.skip(1).len() == s.len() - 1);
        assert(nat_of_digits(s.push(d)) == s[0] + 256 * nat_of_digits(s.skip(1)) + d * (256 * pow(
            256,
            (s.len() - 1) as nat,
        )));
        assert(nat_of_digits(s.push(d)) == nat_of_digits(s) + d * pow(256, s.len() as nat));
    }
}

/// A canonical non-empty digit vector has a non-zero value.
pub proof fn lemma_canonical_nonzero(s: Seq<u8>)
    requires
        s.len() > 0,
        s.last() != 0,
    ensures
        nat_of_digits(s) > 0,
    decreases s.len(),
{
    if s.len() == 1 {
    } else {
        assert(s.skip(1).last() == s.last());
        lemma_canonical_nonzero(s.skip(1));
    }
}

/// Any digit sequence's value is below the base raised to its length.
pub proof fn lemma_nat_of_digits_upper(s: Seq<u8>)
    ensures
        nat_of_digits(s) < pow(256, s.len() as nat),
    decreases s.len(),
{
    if s.len() == 0 {
        vstd::arithmetic::power::lemma_pow0(256);
    } else {
        lemma_nat_of_digits_upper(s.skip(1));
        assert(pow(256, s.len() as nat) == 256 * pow(256, (s.len() - 1) as nat)) by {
            vstd::arithmetic::power::lemma_pow1(256);
            vstd::arithmetic::power::lemma_pow_adds(256, 1, (s.len() - 1) as nat);
        }
        assert(s[0] + 256 * nat_of_digits(s.skip(1)) < 256 * pow(256, (s.len() - 1) as nat))
            by (nonlinear_arith)
            requires
                nat_of_digits(s.skip(1)) < pow(256, (s.len() - 1) as nat),
                0 <= s[0] < 256,
        ;
    }
}

/// A canonical non-empty digit vector's value reaches its top digit's
/// weight.
pub proof fn lemma_canonical_lower(s: Seq<u8>)
    requires
        s.len() > 0,
        s.last() != 0,
    ensures
        nat_of_digits(s) >= pow(256, (s.len() - 1) as nat),
    decreases s.len(),
{
    if s.len() == 1 {
        vstd::arithmetic::power::lemma_pow0(256);
    } else {
        assert(s.skip(1).last() == s.last());
        lemma_canonical_lower(s.skip(1));
        assert(pow(256, (s.len() - 1) as nat) == 256 * pow(256, (s.len() - 2) as nat)) by {
            vstd::arithmetic::power::lemma_pow1(256);
            vstd::arithmetic::power::lemma_pow_adds(256, 1, (s.len() - 2) as nat);
        }
        assert(s[0] + 256 * nat_of_digits(s.skip(1)) >= 256 * pow(256, (s.len() - 2) as nat))
            by (nonlinear_arith)
            requires
                nat_of_digits(s.skip(1)) >= pow(256, (s.len() - 2) as nat),
                s[0] >= 0,
        ;
    }
}

/// Canonical digit vectors are determined by their value.
pub proof fn lemma_canonical_unique(s1: Seq<u8>, s2: Seq<u8>)
    requires
        s1.len() == 0 || s1.last() != 0,
        s2.len() == 0 || s2.last() != 0,
        nat_of_digits(s1) == nat_of_digits(s2),
    ensures
        s1 =~= s2,
    decreases s1.len() + s2.len(),
{
    if s1.len() == 0 {
        if s2.len() > 0 {
            lemma_canonical_nonzero(s2);
        }
    } else if s2.len() == 0 {
        lemma_canonical_nonzero(s1);
    } else {
        assert(nat_of_digits(s1) % 256 == s1[0] && nat_of_digits(s1) / 256 == nat_of_digits(
            s1.skip(1),
        )) by (nonlinear_arith)
            requires
                nat_of_digits(s1) == s1[0] + 256 * nat_of_digits(s1.skip(1)),
                0 <= s1[0] < 256,
        ;
        assert(nat_of_digits(s2) % 256 == s2[0] && nat_of_digits(s2) / 256 == nat_of_digits(
            s2.skip(1),
        )) by (nonlinear_arith)
            requires
                nat_of_digits(s2) == s2[0] + 256 * nat_of_digits(s2.skip(1)),
                0 <= s2[0] < 256,
        ;
        if s1.len() == 1 {
            assert(s1.skip(1).len() == 0);
        } else {
            assert(s1.skip(1).last() == s1.last());
        }
        if s2.len() == 1 {
            assert(s2.skip(1).len() == 0);
        } else {
            assert(s2.skip(1).last() == s2.last());
        }
        lemma_canonical_unique(s1.skip(1), s2.skip(1));
        assert(s1.len() == s2.len());
        assert forall|i: int| 0 <= i < s1.len() implies s1[i] == s2[i] by {
            if i > 0 {
                assert(s1[i] == s1.skip(1)[i - 1]);
                assert(s2[i] == s2.skip(1)[i - 1]);
            }
        }
        assert(s1 =~= s2);
    }
}

/// A canonical product has at most as many digits as its factors
/// together.
pub proof fn lemma_len_of_mul(r: &BigUint, a: &BigUint, b: &BigUint)
    requires
        r.wf(),
        r@ == a@ * b@,
    ensures
        r.spec_digits().len() <= a.spec_digits().len() + b.spec_digits().len(),
{
    let la = a.spec_digits().len();
    let lb = b.spec_digits().len();
    lemma_nat_of_digits_upper(a.spec_digits());
    lemma_nat_of_digits_upper(b.spec_digits());
    a.lemma_view_is_digits();
    b.lemma_view_is_digits();
    vstd::arithmetic::power::lemma_pow_positive(256, la);
    vstd::arithmetic::power::lemma_pow_positive(256, lb);
    vstd::arithmetic::power::lemma_pow_adds(256, la, lb);
    assert(a@ * b@ < pow(256, la) * pow(256, lb)) by (nonlinear_arith)
        requires
            0 <= a@ < pow(256, la),
            0 <= b@ < pow(256, lb),
            pow(256, la) >= 1,
            pow(256, lb) >= 1,
    ;
    r.lemma_len_le_of_value(la + lb);
}

/// A canonical sum has at most one digit more than its longer summand.
pub proof fn lemma_len_of_add(r: &BigUint, a: &BigUint, b: &BigUint)
    requires
        r.wf(),
        r@ == a@ + b@,
    ensures
        r.spec_digits().len() <= 1 + (if a.spec_digits().len() >= b.spec_digits().len() {
            a.spec_digits().len()
        } else {
            b.spec_digits().len()
        }),
{
    let m = if a.spec_digits().len() >= b.spec_digits().len() {
        a.spec_digits().len()
    } else {
        b.spec_digits().len()
    };
    lemma_nat_of_digits_upper(a.spec_digits());
    lemma_nat_of_digits_upper(b.spec_digits());
    a.lemma_view_is_digits();
    b.lemma_view_is_digits();
    vstd::arithmetic::power::lemma_pow_increases(256, a.spec_digits().len(), m);
    vstd::arithmetic::power::lemma_pow_increases(256, b.spec_digits().len(), m);
    assert(pow(256, (m + 1) as nat) == 256 * pow(256, m)) by {
        vstd::arithmetic::power::lemma_pow1(256);
        vstd::arithmetic::power::lemma_pow_adds(256, 1, m);
    }
    vstd::arithmetic::power::lemma_pow_positive(256, m);
    assert(a@ + b@ < 256 * pow(256, m)) by (nonlinear_arith)
        requires
            a@ < pow(256, m),
            b@ < pow(256, m),
            pow(256, m) >= 1,
    ;
    r.lemma_len_le_of_value(m + 1);
}

/// Whether two canonical big integers hold the same value.
pub fn big_eq(a: &BigUint, b: &BigUint) -> (r: bool)
    requires
        a.wf(),
        b.wf(),
    ensures
        r == (a@ == b@),
{
    let an = a.digits.len();
    let bn = b.digits.len();
    if an != bn {
        proof {
            if a@ == b@ {
                lemma_canonical_unique(a.digits@, b.digits@);
            }
        }
        return false;
    }
    let mut i: usize = 0;
    while i < an
        invariant
            a.wf(),
            b.wf(),
            an == a.digits@.len(),
            an == b.digits@.len(),
            0 <= i <= an,
            forall|k: int| 0 <= k < i ==> a.digits@[k] == b.digits@[k],
        decreases an - i,
    {
        if a.digits[i] != b.digits[i] {
            proof {
                if a@ == b@ {
                    lemma_canonical_unique(a.digits@, b.digits@);
                }
            }
            return false;
        }
        i = i + 1;
    }
    proof {
        assert(a.digits@ =~= b.digits@);
    }
    true
}

/// Relies on openssl's `BN_add` (`BigNumRef::checked_add`), with
/// `from_slice` and `to_vec` converting between the big-endian bytes that
/// openssl uses and this type's little-endian digits: the sum of two
/// non-negative integers, in canonical digits.
#[verifier::external_body]
pub fn big_add(a: &BigUint, b: &BigUint) -> (r: BigUint)
    requires
        a.spec_digits().len() < 0x8000_0000,
        b.spec_digits().len() < 0x8000_0000,
    ensures
        r@ == a@ + b@,
        r.wf(),
{
    let mut av = a.digits.clone();
    av.reverse();
    let mut bv = b.digits.clone();
    bv.reverse();
    let x = openssl::bn::BigNum::from_slice(&av).expect("bignum");
    let y = openssl::bn::BigNum::from_slice(&bv).expect("bignum");
    let mut z = openssl::bn::BigNum::new().expect("bignum");
    z.checked_add(&x, &y).expect("bignum");
    let mut rv = z.to_vec();
    rv.reverse();
    BigUint { digits: rv }
}

/// Relies on openssl's `BN_sub` (`BigNumRef::checked_sub`): the difference
/// of two non-negative integers, in canonical digits.
#[verifier::external_body]
pub fn big_sub(a: &BigUint, b: &BigUint) -> (r: BigUint)
    requires
        a.spec_digits().len() < 0x8000_0000,
        b.spec_digits().len() < 0x8000_0000,
        b@ <= a@,
    ensures
        r@ == a@ - b@,
        r.wf(),
{
    let mut av = a.digits.clone();
    av.reverse();
    let mut bv = b.digits.clone();
    bv.reverse();
    let x = openssl::bn::BigNum::from_slice(&av).expect("bignum");
    let y = openssl::bn::BigNum::from_slice(&bv).expect("bignum");
    let mut z = openssl::bn::BigNum::new().expect("bignum");
    z.checked_sub(&x, &y).expect("bignum");
    let mut rv = z.to_vec();
    rv.reverse();
    BigUint { digits: rv }
}

/// Relies on openssl's `BN_mul` (`BigNumRef::checked_mul`): the product of
/// two non-negative integers, in canonical digits.
#[verifier::external_body]
pub fn big_mul(a: &BigUint, b: &BigUint) -> (r: BigUint)
    requires
        a.spec_digits().len() < 0x8000_0000,
        b.spec_digits().len() < 0x8000_0000,
    ensures
        r@ == a@ * b@,
        r.wf(),
{
    let mut av = a.digits.clone();
    av.reverse();
    let mut bv = b.digits.clone();
    bv.reverse();
    let x = openssl::bn::BigNum::from_slice(&av).expect("bignum");
    let y = openssl::bn::BigNum::from_slice(&bv).expect("bignum");
    let mut ctx = openssl::bn::BigNumContext::new().expect("bignum");
    let mut z = openssl::bn::BigNum::new().expect("bignum");
    z.checked_mul(&x, &y, &mut ctx).expect("bignum");
    let mut rv = z.to_vec();
    rv.reverse();
    BigUint { digits: rv }
}

/// Relies on openssl's `BN_div` (`BigNumRef::checked_div`), which rounds
/// toward zero and so equals floor division on non-negative operands.
#[verifier::external_body]
pub fn big_div(a: &BigUint, b: &BigUint) -> (r: BigUint)
    requires
        a.spec_digits().len() < 0x8000_0000,
        b.spec_digits().len() < 0x8000_0000,
        b@ > 0,
    ensures
        r@ == a@ / b@,
        r.wf(),
{
    let mut av = a.digits.clone();
    av.reverse();
    let mut bv = b.digits.clone();
    bv.reverse();
    let x = openssl::bn::BigNum::from_slice(&av).expect("bignum");
    let y = openssl::bn::BigNum::from_slice(&bv).expect("bignum");
    let mut ctx = openssl::bn::BigNumContext::new().expect("bignum");
    let mut z = openssl::bn::BigNum::new().expect("bignum");
    z.checked_div(&x, &y, &mut ctx).expect("bignum");
    let mut rv = z.to_vec();
    rv.reverse();
    BigUint { digits: rv }
}

/// Relies on openssl's `BN_mod_exp` (`BigNumRef::mod_exp`): modular
/// exponentiation with a non-negative exponent, reduced into `[0, m)`.
#[verifier::external_body]
pub fn big_pow_mod(b: &BigUint, e: &BigUint, m: &BigUint) -> (r: BigUint)
    requires
        b.spec_digits().len() < 0x8000_0000,
        e.spec_digits().len() < 0x8000_0000,
        m.spec_digits().len() < 0x8000_0000,
        m@ > 0,
    ensures
        r@ == pow(b@ as int, e@) % (m@ as int),
        r.wf(),
{
    let mut bv = b.digits.clone();
    bv.reverse();
    let mut ev = e.digits.clone();
    ev.reverse();
    let mut mv = m.digits.clone();
    mv.reverse();
    let x = openssl::bn::BigNum::from_slice(&bv).expect("bignum");
    let y = openssl::bn::BigNum::from_slice(&ev).expect("bignum");
    let md = openssl::bn::BigNum::from_slice(&mv).expect("bignum");
    let mut ctx = openssl::bn::BigNumContext::new().expect("bignum");
    let mut z = openssl::bn::BigNum::new().expect("bignum");
    z.mod_exp(&x, &y, &md, &mut ctx).expect("bignum");
    let mut rv = z.to_vec();
    rv.reverse();
    BigUint { digits: rv }
}

/// Relies on openssl's `BN_mod_inverse` (`BigNumRef::mod_inverse`), which
/// for a modulus above one returns the inverse in `[0, m)` exactly when
/// `a` and `m` are coprime and signals failure otherwise. A modulus of
/// one is excluded: openssl reports "no inverse" there.
#[verifier::external_body]
pub fn big_invert(a: &BigUint, m: &BigUint) -> (r: Option<BigUint>)
    requires
        a.spec_digits().len() < 0x8000_0000,
        m.spec_digits().len() < 0x8000_0000,
        m@ > 1,
    ensures
        r.is_some() <==> crate::arith::gcd_nat(a@, m@) == 1,
        r matches Some(x) ==> x@ < m@ && (a@ * x@) % m@ == 1nat % m@ && x.wf(),
{
    let mut av = a.digits.clone();
    av.reverse();
    let mut mv = m.digits.clone();
    mv.reverse();
    let x = openssl::bn::BigNum::from_slice(&av).expect("bignum");
    let md = openssl::bn::BigNum::from_slice(&mv).expect("bignum");
    let mut ctx = openssl::bn::BigNumContext::new().expect("bignum");
    let mut z = openssl::bn::BigNum::new().expect("bignum");
    if z.mod_inverse(&x, &md, &mut ctx).is_err() {
        return None;
    }
    let mut rv = z.to_vec();
    rv.reverse();
    Some(BigUint { digits: rv })
}

/// Relies on openssl's `BN_cmp` (through `BigNum`'s ordering): whether
/// one non-negative integer is strictly below another.
#[verifier::external_body]
pub fn big_lt(a: &BigUint, b: &BigUint) -> (r: bool)
    requires
        a.spec_digits().len() < 0x8000_0000,
        b.spec_digits().len() < 0x8000_0000,
    ensures
        r == (a@ < b@),
{
    let mut av = a.digits.clone();
    av.reverse();
    let mut bv = b.digits.clone();
    bv.reverse();
    let x = openssl::bn::BigNum::from_slice(&av).expect("bignum");
    let y = openssl::bn::BigNum::from_slice(&bv).expect("bignum");
    x < y
}

/// Relies on openssl's `BN_gcd` (`BigNumRef::gcd`): the greatest common
/// divisor of two non-negative integers.
#[verifier::external_body]
pub fn big_gcd(a: &BigUint, b: &BigUint) -> (r: BigUint)
    requires
        a.spec_digits().len() < 0x8000_0000,
        b.spec_digits().len() < 0x8000_0000,
    ensures
        r@ == crate::arith::gcd_nat(a@, b@),
        r.wf(),
{
    let mut av = a.digits.clone();
    av.reverse();
    let mut bv = b.digits.clone();
    bv.reverse();
    let x = openssl::bn::BigNum::from_slice(&av).expect("bignum");
    let y = openssl::bn::BigNum::from_slice(&bv).expect("bignum");
    let mut ctx = openssl::bn::BigNumContext::new().expect("bignum");
    let mut z = openssl::bn::BigNum::new().expect("bignum");
    z.gcd(&x, &y, &mut ctx).expect("bignum");
    let mut rv = z.to_vec();
    rv.reverse();
    BigUint { digits: rv }
}

/// Relies on openssl's `BN_div` remainder output (`BigNumRef::checked_rem`),
/// which on non-negative operands is the mathematical remainder.
#[verifier::external_body]
pub fn big_rem(a: &BigUint, m: &BigUint) -> (r: BigUint)
    requires
        a.spec_digits().len() < 0x8000_0000,
        m.spec_digits().len() < 0x8000_0000,
        m@ > 0,
    ensures
        r@ == a@ % m@,
        r.wf(),
{
    let mut av = a.digits.clone();
    av.reverse();
    let mut mv = m.digits.clone();
    mv.reverse();
    let x = openssl::bn::BigNum::from_slice(&av).expect("bignum");
    let y = openssl::bn::BigNum::from_slice(&mv).expect("bignum");
    let mut ctx = openssl::bn::BigNumContext::new().expect("bignum");
    let mut z = openssl::bn::BigNum::new().expect("bignum");
    z.checked_rem(&x, &y, &mut ctx).expect("bignum");
    let mut rv = z.to_vec();
    rv.reverse();
    BigUint { digits: rv }
}

} // verus!
