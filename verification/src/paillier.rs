//! The threshold Paillier scheme: key generation, encryption, homomorphic
//! operations, key sharing, partial decryption, and share combination.

use vstd::prelude::*;
use vstd::arithmetic::power::pow;
use vstd::multiset::Multiset;
use vstd::arithmetic::power2::pow2;
use crate::arith::{fact, gcd_nat, inv_mod, is_prime, lemma_odd_mul, lemma_prod_ms_insert,
    lemma_signed_mul, lemma_tdiv_signed, prod_ms, signed, tdiv};
use crate::bignum::{big_add, big_eq, big_gcd, big_invert, big_mul, big_pow_mod, big_rem, BigUint};
use crate::rand::{generate_safe_prime, random_in_mult_group, Rng};
use crate::util::crt2;
use crate::{Ciphertext, Error, Plaintext};

verus! {

/// One holder's share of the private decryption exponent: the sharing
/// polynomial evaluated at this holder's one-based index.
#[derive(Debug, Clone)]
pub struct PrivateKeyShare {
    pub(crate) i: u32,
    pub(crate) si: BigUint,
}

/// One holder's contribution to decrypting a particular ciphertext.
#[derive(Debug, Clone)]
pub struct PartialDecryption {
    pub(crate) val: BigUint,
    pub(crate) id: u32,
}

/// The public half of a key pair: the modulus and the precomputed
/// constants that encryption and share combination use.
#[derive(Debug, Clone, PartialEq, Eq)]
pub struct PublicKey {
    /// The number of shares required to decrypt.
    pub(crate) w: u32,
    /// The total number of decryption servers.
    pub(crate) l: u32,
    /// The modulus `n = p * q`.
    pub(crate) n: BigUint,
    /// Precomputation: `n + 1`.
    pub(crate) g: BigUint,
    /// Precomputation: `n^2`.
    pub(crate) n2: BigUint,
    /// Precomputation: `l!`.
    pub(crate) delta: BigUint,
    /// Precomputation: `(4 * delta^2)^{-1} mod n`.
    pub(crate) combine_shares_constant: BigUint,
}

/// The private half of a key pair: the decryption exponent `d` and the
/// moduli it lives under.
#[derive(Debug, Clone, PartialEq, Eq)]
pub struct PrivateKey {
    /// The number of shares required to decrypt.
    pub(crate) w: u32,
    /// The total number of decryption servers.
    pub(crate) l: u32,
    /// The exponent with `d = 1 mod n` and `d = 0 mod m`.
    pub(crate) d: BigUint,
    /// The modulus `n = p * q`.
    pub(crate) n: BigUint,
    /// Precomputation: `n^2`.
    pub(crate) n2: BigUint,
    /// Precomputation: `n * m` where `m = ((p-1)/2) * ((q-1)/2)`.
    pub(crate) nm: BigUint,
}

/// The sharing polynomial: its constant coefficient is the private
/// exponent, the rest are uniform in `[0, n * m)`. It exists only for the
/// duration of one sharing.
pub struct Polynomial<'a> {
    sk: &'a PrivateKey,
    coefficients: Vec<BigUint>,
}

impl PublicKey {
    /// The threshold: how many shares decryption takes.
    pub closed spec fn spec_w(&self) -> nat {
        self.w as nat
    }

    /// The total number of decryption servers.
    pub closed spec fn spec_l(&self) -> nat {
        self.l as nat
    }

    /// The modulus.
    pub closed spec fn spec_n(&self) -> nat {
        self.n@
    }

    /// The group generator `n + 1`.
    pub closed spec fn spec_g(&self) -> nat {
        self.g@
    }

    /// The ciphertext modulus `n^2`.
    pub closed spec fn spec_n2(&self) -> nat {
        self.n2@
    }

    /// The Lagrange denominator cleaner `l!`.
    pub closed spec fn spec_delta(&self) -> nat {
        self.delta@
    }

    /// The inverse of `4 * delta^2` modulo `n`.
    pub closed spec fn spec_combine_const(&self) -> nat {
        self.combine_shares_constant@
    }

    /// The key's invariants: an odd modulus larger than one, the
    /// precomputed values agreeing with their definitions, and a valid
    /// threshold.
    pub open spec fn wf(&self) -> bool {
        &&& self.spec_n() > 1
        &&& self.spec_n() % 2 == 1
        &&& self.spec_g() == self.spec_n() + 1
        &&& self.spec_n2() == self.spec_n() * self.spec_n()
        &&& self.spec_delta() == fact(self.spec_l())
        &&& self.spec_combine_const() < self.spec_n()
        &&& (4 * self.spec_delta() * self.spec_delta() * self.spec_combine_const())
            % self.spec_n() == 1
        &&& self.spec_l() <= 0x1f_ffff
        &&& 1 <= self.spec_w() <= self.spec_l()
        &&& self.fields_wf()
        &&& self.fields_fit()
    }

    /// Every big-integer field is in canonical digit form.
    pub closed spec fn fields_wf(&self) -> bool {
        self.n.wf() && self.g.wf() && self.n2.wf() && self.delta.wf()
            && self.combine_shares_constant.wf()
    }

    /// Every big-integer field is small enough for the arithmetic
    /// backend's operand cap, with room for the products the operations
    /// form.
    pub closed spec fn fields_fit(&self) -> bool {
        self.n.spec_digits().len() <= 0x3fff_ffff && self.g.spec_digits().len() <= 0x3fff_ffff
            && self.n2.spec_digits().len() <= 0x3fff_ffff && self.delta.spec_digits().len()
            <= 0x3fff_ffff && self.combine_shares_constant.spec_digits().len() <= 0x3fff_ffff
    }

    /// The key's abstract values are the values of its stored fields.
    pub(crate) proof fn lemma_parts(&self)
        ensures
            self.spec_w() == self.w,
            self.spec_l() == self.l,
            self.spec_n() == self.n@,
            self.spec_g() == self.g@,
            self.spec_n2() == self.n2@,
            self.spec_delta() == self.delta@,
            self.spec_combine_const() == self.combine_shares_constant@,
            self.fields_wf() == (self.n.wf() && self.g.wf() && self.n2.wf() && self.delta.wf()
                && self.combine_shares_constant.wf()),
            self.fields_fit() == (self.n.spec_digits().len() <= 0x3fff_ffff
                && self.g.spec_digits().len() <= 0x3fff_ffff && self.n2.spec_digits().len()
                <= 0x3fff_ffff && self.delta.spec_digits().len() <= 0x3fff_ffff
                && self.combine_shares_constant.spec_digits().len() <= 0x3fff_ffff),
    {
    }
}

impl PrivateKey {
    /// The threshold: how many shares decryption takes.
    pub closed spec fn spec_w(&self) -> nat {
        self.w as nat
    }

    /// The total number of decryption servers.
    pub closed spec fn spec_l(&self) -> nat {
        self.l as nat
    }

    /// The decryption exponent.
    pub closed spec fn spec_d(&self) -> nat {
        self.d@
    }

    /// The modulus.
    pub closed spec fn spec_n(&self) -> nat {
        self.n@
    }

    /// The ciphertext modulus `n^2`.
    pub closed spec fn spec_n2(&self) -> nat {
        self.n2@
    }

    /// The sharing modulus `n * m`.
    pub closed spec fn spec_nm(&self) -> nat {
        self.nm@
    }

    /// The hidden group order `m = ((p-1)/2) * ((q-1)/2)`.
    pub open spec fn spec_m(&self) -> nat {
        self.spec_nm() / self.spec_n()
    }

    /// The key's invariants, among them the two congruences that define
    /// the exponent: `d = 1 mod n` and `d = 0 mod m`.
    pub open spec fn wf(&self) -> bool {
        &&& self.spec_n() > 1
        &&& self.spec_m() > 1
        &&& self.spec_nm() == self.spec_n() * self.spec_m()
        &&& gcd_nat(self.spec_n(), self.spec_m()) == 1
        &&& self.spec_n2() == self.spec_n() * self.spec_n()
        &&& self.spec_d() < self.spec_nm()
        &&& self.spec_d() % self.spec_n() == 1
        &&& self.spec_d() % self.spec_m() == 0
        &&& self.spec_l() <= 0x1f_ffff
        &&& 1 <= self.spec_w() <= self.spec_l()
        &&& self.fields_wf()
        &&& self.fields_fit()
    }

    /// Every big-integer field is in canonical digit form.
    pub closed spec fn fields_wf(&self) -> bool {
        self.d.wf() && self.n.wf() && self.n2.wf() && self.nm.wf()
    }

    /// Every big-integer field is small enough for the arithmetic
    /// backend's operand cap, with room for the products the operations
    /// form.
    pub closed spec fn fields_fit(&self) -> bool {
        self.d.spec_digits().len() <= 0x3fff_ffff && self.n.spec_digits().len() <= 0x3fff_ffff
            && self.n2.spec_digits().len() <= 0x3fff_ffff && self.nm.spec_digits().len()
            <= 0x3fff_ffff
    }

    /// The key's abstract values are the values of its stored fields.
    pub(crate) proof fn lemma_parts(&self)
        ensures
            self.spec_w() == self.w,
            self.spec_l() == self.l,
            self.spec_d() == self.d@,
            self.spec_n() == self.n@,
            self.spec_n2() == self.n2@,
            self.spec_nm() == self.nm@,
            self.fields_wf() == (self.d.wf() && self.n.wf() && self.n2.wf() && self.nm.wf()),
            self.fields_fit() == (self.d.spec_digits().len() <= 0x3fff_ffff
                && self.n.spec_digits().len() <= 0x3fff_ffff && self.n2.spec_digits().len()
                <= 0x3fff_ffff && self.nm.spec_digits().len() <= 0x3fff_ffff),
    {
    }
}

impl PartialDecryption {
    /// The share holder's one-based index.
    pub closed spec fn spec_id(&self) -> nat {
        self.id as nat
    }

    /// The partially decrypted value.
    pub closed spec fn spec_val(&self) -> nat {
        self.val@
    }

    /// The carried value is in canonical digit form.
    pub closed spec fn wf(&self) -> bool {
        self.val.wf()
    }

    /// The carried value is small enough for the arithmetic backend.
    pub closed spec fn fits(&self) -> bool {
        self.val.spec_digits().len() <= 0x3fff_ffff
    }

    /// Checks canonicity and size, so that a partial decryption read
    /// back from its byte form can be combined by verified callers.
    pub fn check(&self) -> (r: bool)
        ensures
            r == (self.wf() && self.fits()),
    {
        self.val.is_canonical() && self.val.digits().len() <= 0x3fff_ffff
    }

    /// The share's abstract values are the values of its stored fields.
    pub(crate) proof fn lemma_parts(&self)
        ensures
            self.spec_id() == self.id,
            self.spec_val() == self.val@,
    {
    }
}

impl PrivateKeyShare {
    /// The share holder's one-based index.
    pub closed spec fn spec_i(&self) -> nat {
        self.i as nat
    }

    /// The polynomial evaluation held by this share.
    pub closed spec fn spec_si(&self) -> nat {
        self.si@
    }

    /// The carried evaluation is in canonical digit form.
    pub closed spec fn wf(&self) -> bool {
        self.si.wf()
    }

    /// The carried evaluation is small enough for the arithmetic backend.
    pub closed spec fn fits(&self) -> bool {
        self.si.spec_digits().len() <= 0x3fff_ffff
    }

    /// Checks canonicity and size, so that a share read back from its
    /// byte form can decrypt for verified callers.
    pub fn check(&self) -> (r: bool)
        ensures
            r == (self.wf() && self.fits()),
    {
        self.si.is_canonical() && self.si.digits().len() <= 0x3fff_ffff
    }

    /// The share's abstract values are the values of its stored fields.
    pub(crate) proof fn lemma_parts(&self)
        ensures
            self.spec_i() == self.i,
            self.spec_si() == self.si@,
    {
    }

    /// Wraps a polynomial evaluation as the share of the zero-based
    /// server index `i`.
    pub fn new(si: BigUint, i: u32) -> (r: Self)
        requires
            i < 0xffff_ffff,
        ensures
            r.spec_i() == i + 1,
            r.spec_si() == si@,
            si.wf() ==> r.wf(),
            si.spec_digits().len() <= 0x3fff_ffff ==> r.fits(),
    {
        Self { i: i + 1, si }
    }

    /// Raises the ciphertext to `2 * delta * s_i` modulo `n^2`: this
    /// holder's partial decryption.
    pub fn share_decrypt(&self, pk: &PublicKey, cipher: Ciphertext) -> (r: PartialDecryption)
        requires
            pk.wf(),
            self.fits(),
            cipher.fits(),
        ensures
            r.spec_id() == self.spec_i(),
            r.spec_val() == pow(cipher@ as int, (self.spec_si() * pk.spec_delta() * 2) as nat)
                % (pk.spec_n2() as int),
            r.wf(),
            r.fits(),
    {
        proof {
            lemma_n2_pos(pk.spec_n(), pk.spec_n2());
            cipher.lemma_parts();
        }
        let two = BigUint::from_u64(2);
        proof {
            vstd::arithmetic::power::lemma_pow1(256);
            two.lemma_len_le_of_value(1);
        }
        let sd = big_mul(&self.si, &pk.delta);
        proof {
            crate::bignum::lemma_len_of_mul(&sd, &self.si, &pk.delta);
        }
        let exponent = big_mul(&sd, &two);
        proof {
            crate::bignum::lemma_len_of_mul(&exponent, &sd, &two);
        }
        let share = big_pow_mod(&cipher.val, &exponent, &pk.n2);
        proof {
            share.lemma_len_le_of_le(&pk.n2);
        }
        PartialDecryption { val: share, id: self.i }
    }
}

impl PublicKey {
    /// Checks every clause of the key's invariant, so that a key read
    /// back from its byte form can be used by verified callers.
    pub fn check(&self) -> (r: bool)
        ensures
            r == self.wf(),
    {
        if self.n.digits().len() > 0x3fff_ffff || self.g.digits().len() > 0x3fff_ffff
            || self.n2.digits().len() > 0x3fff_ffff || self.delta.digits().len() > 0x3fff_ffff
            || self.combine_shares_constant.digits().len() > 0x3fff_ffff {
            return false;
        }
        if !(self.n.is_canonical() && self.g.is_canonical() && self.n2.is_canonical()
            && self.delta.is_canonical() && self.combine_shares_constant.is_canonical()) {
            return false;
        }
        if self.l > 0x1f_ffff || self.w < 1 || self.w > self.l {
            return false;
        }
        let one = BigUint::from_u64(1);
        let two = BigUint::from_u64(2);
        let four = BigUint::from_u64(4);
        if !crate::bignum::big_lt(&one, &self.n) {
            return false;
        }
        let r2 = big_rem(&self.n, &two);
        if !big_eq(&r2, &one) {
            return false;
        }
        let np1 = big_add(&self.n, &one);
        proof {
            crate::bignum::lemma_len_of_add(&np1, &self.n, &one);
        }
        if !big_eq(&self.g, &np1) {
            return false;
        }
        let nn = big_mul(&self.n, &self.n);
        if !big_eq(&self.n2, &nn) {
            return false;
        }
        let f = factorial(self.l);
        if !big_eq(&self.delta, &f) {
            return false;
        }
        proof {
            self.delta.lemma_wf_is_digits();
            f.lemma_wf_is_digits();
            self.delta.lemma_view_is_digits();
            f.lemma_view_is_digits();
            crate::bignum::lemma_canonical_unique(self.delta.spec_digits(), f.spec_digits());
        }
        if !crate::bignum::big_lt(&self.combine_shares_constant, &self.n) {
            return false;
        }
        let fd = big_mul(&four, &self.delta);
        proof {
            crate::bignum::lemma_len_of_mul(&fd, &four, &self.delta);
        }
        let c4d2 = big_mul(&fd, &self.delta);
        proof {
            crate::bignum::lemma_len_of_mul(&c4d2, &fd, &self.delta);
        }
        let prod = big_mul(&c4d2, &self.combine_shares_constant);
        proof {
            crate::bignum::lemma_len_of_mul(&prod, &c4d2, &self.combine_shares_constant);
        }
        let res = big_rem(&prod, &self.n);
        big_eq(&res, &one)
    }
}

impl PrivateKey {
    /// Checks every clause of the key's invariant, so that a key read
    /// back from its byte form can be used by verified callers.
    pub fn check(&self) -> (r: bool)
        ensures
            r == self.wf(),
    {
        if self.d.digits().len() > 0x3fff_ffff || self.n.digits().len() > 0x3fff_ffff
            || self.n2.digits().len() > 0x3fff_ffff || self.nm.digits().len() > 0x3fff_ffff {
            return false;
        }
        if !(self.d.is_canonical() && self.n.is_canonical() && self.n2.is_canonical()
            && self.nm.is_canonical()) {
            return false;
        }
        if self.l > 0x1f_ffff || self.w < 1 || self.w > self.l {
            return false;
        }
        let one = BigUint::from_u64(1);
        let zero = BigUint::from_u64(0);
        if !crate::bignum::big_lt(&one, &self.n) {
            return false;
        }
        let mv = crate::bignum::big_div(&self.nm, &self.n);
        proof {
            vstd::arithmetic::div_mod::lemma_div_nonincreasing(self.nm@ as int, self.n@ as int);
            mv.lemma_len_le_of_le(&self.nm);
        }
        if !crate::bignum::big_lt(&one, &mv) {
            return false;
        }
        let prod = big_mul(&self.n, &mv);
        if !big_eq(&self.nm, &prod) {
            return false;
        }
        let gc = big_gcd(&self.n, &mv);
        if !big_eq(&gc, &one) {
            return false;
        }
        let nn = big_mul(&self.n, &self.n);
        if !big_eq(&self.n2, &nn) {
            return false;
        }
        if !crate::bignum::big_lt(&self.d, &self.nm) {
            return false;
        }
        let rn = big_rem(&self.d, &self.n);
        if !big_eq(&rn, &one) {
            return false;
        }
        let rm = big_rem(&self.d, &mv);
        big_eq(&rm, &zero)
    }
}

/// The value of the polynomial with the given coefficients at `x`:
/// `a_0 + a_1 * x + ... + a_{w-1} * x^{w-1}`.
pub open spec fn poly_sum(coeffs: Seq<nat>, x: nat) -> int
    decreases coeffs.len(),
{
    if coeffs.len() == 0 {
        0
    } else {
        poly_sum(coeffs.drop_last(), x) + coeffs.last() * pow(x as int, (coeffs.len() - 1) as nat)
    }
}

/// The polynomial value reduced modulo the sharing modulus.
pub open spec fn poly_eval(coeffs: Seq<nat>, x: nat, nm: nat) -> int {
    poly_sum(coeffs, x) % (nm as int)
}

/// No index occurs twice.
pub open spec fn indices_distinct(s: Seq<u32>) -> bool {
    forall|i: int, j: int| 0 <= i < j < s.len() ==> s[i] != s[j]
}

/// The shares are evaluations, at the one-based server indices, of a
/// polynomial over `Z_nm` whose constant coefficient is the private
/// exponent.
pub open spec fn shares_of_polynomial(
    sk: PrivateKey,
    indices: Seq<u32>,
    shares: Seq<PrivateKeyShare>,
) -> bool {
    exists|coeffs: Seq<nat>|
        #![auto]
        {
            &&& coeffs.len() == sk.spec_w()
            &&& coeffs.len() > 0
            &&& coeffs[0] == sk.spec_d()
            &&& forall|j: int| 0 <= j < coeffs.len() ==> coeffs[j] < sk.spec_nm()
            &&& shares.len() == indices.len()
            &&& forall|k: int|
                0 <= k < indices.len() ==> shares[k].spec_i() == indices[k] + 1
                    && shares[k].spec_si() == poly_eval(
                    coeffs,
                    (indices[k] + 1) as nat,
                    sk.spec_nm(),
                )
        }
}

impl<'a> Polynomial<'a> {
    /// The private key this polynomial shares.
    pub closed spec fn spec_sk(&self) -> PrivateKey {
        *self.sk
    }

    /// The coefficient values, constant term first.
    pub closed spec fn spec_coeffs(&self) -> Seq<nat> {
        self.coefficients@.map_values(|c: BigUint| c@)
    }

    /// The polynomial's invariants: a valid key, exactly `w`
    /// coefficients below `n * m`, and the exponent as constant term.
    pub open spec fn wf(&self) -> bool {
        &&& self.spec_sk().wf()
        &&& self.spec_coeffs().len() == self.spec_sk().spec_w()
        &&& self.spec_coeffs()[0] == self.spec_sk().spec_d()
        &&& forall|j: int|
            0 <= j < self.spec_coeffs().len() ==> #[trigger] self.spec_coeffs()[j]
                < self.spec_sk().spec_nm()
        &&& self.coeffs_wf()
    }

    /// Every coefficient is in canonical digit form.
    pub closed spec fn coeffs_wf(&self) -> bool {
        forall|j: int|
            0 <= j < self.coefficients@.len() ==> #[trigger] self.coefficients@[j].wf()
    }

    /// Builds the sharing polynomial: the constant coefficient is the
    /// private exponent, the rest are drawn uniformly below `n * m`.
    pub fn new<'b>(sk: &'a PrivateKey, rand: &'b mut Rng) -> (r: Self)
        requires
            sk.wf(),
        ensures
            r.wf(),
            r.spec_sk() == *sk,
    {
        proof {
            assert(sk.spec_nm() > 1) by (nonlinear_arith)
                requires
                    sk.spec_nm() == sk.spec_n() * sk.spec_m(),
                    sk.spec_n() > 1,
                    sk.spec_m() > 1,
            ;
        }
        let w = sk.w;
        let mut coefficients: Vec<BigUint> = Vec::new();
        coefficients.push(sk.d.clone());
        let mut j: u32 = 1;
        while j < w
            invariant
                sk.wf(),
                sk.spec_nm() > 1,
                1 <= j <= w,
                w == sk.spec_w(),
                coefficients@.len() == j,
                coefficients@[0]@ == sk.spec_d(),
                forall|t: int| 0 <= t < j ==> #[trigger] coefficients@[t]@ < sk.spec_nm(),
                forall|t: int| 0 <= t < j ==> #[trigger] coefficients@[t].wf(),
            decreases w - j,
        {
            let c = crate::rand::random_below(&sk.nm, rand);
            coefficients.push(c);
            j = j + 1;
        }
        let r = Self { sk, coefficients };
        proof {
            assert(forall|t: int|
                0 <= t < r.spec_coeffs().len() ==> #[trigger] r.spec_coeffs()[t]
                    == r.coefficients@[t]@);
        }
        r
    }

    /// Evaluates the polynomial at the one-based index `x + 1`, reduced
    /// modulo `n * m`, and wraps it as the share of server `x`.
    pub fn compute(&self, x: u32) -> (r: PrivateKeyShare)
        requires
            self.wf(),
            x < 0xffff_ffff,
        ensures
            r.spec_i() == x + 1,
            r.spec_si() == poly_eval(self.spec_coeffs(), (x + 1) as nat, self.spec_sk().spec_nm()),
            r.wf(),
            r.fits(),
    {
        let ghost coeffs = self.spec_coeffs();
        let ghost nm_v = self.spec_sk().spec_nm();
        let ghost xv = (x + 1) as nat;
        proof {
            assert(nm_v > 1) by (nonlinear_arith)
                requires
                    nm_v == self.spec_sk().spec_n() * self.spec_sk().spec_m(),
                    self.spec_sk().spec_n() > 1,
                    self.spec_sk().spec_m() > 1,
            ;
            vstd::arithmetic::power::lemma_pow0(xv as int);
            assert(coeffs.take(1).drop_last() =~= Seq::<nat>::empty());
            assert(coeffs.take(1).last() == coeffs[0]);
            assert(coeffs.take(1).len() == 1);
            assert(poly_sum(coeffs.take(1).drop_last(), xv) == 0);
            assert(poly_sum(coeffs.take(1), xv) == poly_sum(coeffs.take(1).drop_last(), xv)
                + coeffs.take(1).last() * pow(xv as int, 0));
            assert(poly_sum(coeffs.take(1), xv) == coeffs[0]);
            vstd::arithmetic::div_mod::lemma_small_mod(coeffs[0], nm_v);
        }
        let xbig = BigUint::from_u64((x as u64) + 1);
        let mut xp = BigUint::from_u64(1);
        let mut rop = self.coefficients[0].clone();
        proof {
            assert(self.coefficients@[0].wf());
            assert(self.spec_coeffs()[0] == self.coefficients@[0]@);
            self.coefficients@[0].lemma_len_le_of_le(&self.sk.nm);
        }
        let mut i: usize = 1;
        let len = self.coefficients.len();
        while i < len
            invariant
                self.wf(),
                coeffs == self.spec_coeffs(),
                nm_v == self.spec_sk().spec_nm(),
                nm_v > 1,
                xv == x + 1,
                xbig@ == xv,
                1 <= i <= len,
                len == self.coefficients@.len(),
                xp@ == pow(xv as int, (i - 1) as nat),
                rop@ == poly_eval(coeffs.take(i as int), xv, nm_v),
                rop.wf(),
                xbig.spec_digits().len() <= 8,
                xp.spec_digits().len() <= 8 * i,
                rop.spec_digits().len() <= self.sk.nm.spec_digits().len(),
            decreases len - i,
        {
            proof {
                assert(self.spec_coeffs().len() == self.coefficients@.len());
                assert(len <= 0x1f_ffff);
            }
            let ghost prev_xp = xp;
            xp = big_mul(&xp, &xbig);
            proof {
                assert(pow(xv as int, (i - 1) as nat) * xv == pow(xv as int, i as nat)) by {
                    vstd::arithmetic::power::lemma_pow1(xv as int);
                    vstd::arithmetic::power::lemma_pow_adds(xv as int, (i - 1) as nat, 1);
                }
                crate::bignum::lemma_len_of_mul(&xp, &prev_xp, &xbig);
                assert(self.coefficients@[i as int].wf());
                assert(self.spec_coeffs()[i as int] == self.coefficients@[i as int]@);
                assert(self.coefficients@[i as int]@ < self.spec_sk().spec_nm());
                self.coefficients@[i as int].lemma_len_le_of_le(&self.sk.nm);
            }
            let term = big_mul(&self.coefficients[i], &xp);
            proof {
                crate::bignum::lemma_len_of_mul(&term, &self.coefficients@[i as int], &xp);
            }
            let sum = big_add(&rop, &term);
            proof {
                crate::bignum::lemma_len_of_add(&sum, &rop, &term);
            }
            let next = big_rem(&sum, &self.sk.nm);
            proof {
                next.lemma_len_le_of_le(&self.sk.nm);
            }
            proof {
                let a = poly_sum(coeffs.take(i as int), xv);
                let b = coeffs[i as int] * pow(xv as int, i as nat);
                assert(term@ == b);
                assert(coeffs.take(i + 1).drop_last() =~= coeffs.take(i as int));
                assert(coeffs.take(i + 1).last() == coeffs[i as int]);
                assert(poly_sum(coeffs.take(i + 1), xv) == a + b);
                vstd::arithmetic::div_mod::lemma_add_mod_noop_right(b, a, nm_v as int);
                assert((b + a % (nm_v as int)) % (nm_v as int) == (b + a) % (nm_v as int));
                assert(next@ == (a % (nm_v as int) + b) % (nm_v as int));
            }
            rop = next;
            i = i + 1;
        }
        proof {
            assert(coeffs.take(len as int) =~= coeffs);
        }
        PrivateKeyShare::new(rop, x)
    }
}

impl PrivateKey {
    /// Splits the key into one share per server index: a fresh sharing
    /// polynomial with constant term `d`, evaluated at each one-based
    /// index. The caller must pass exactly `w` distinct indices, else
    /// nothing is shared.
    pub fn share(self, server_indices: &[u32], rand_state: &mut Rng) -> (r: Result<
        Vec<PrivateKeyShare>,
        Error,
    >)
        requires
            self.wf(),
            forall|k: int| 0 <= k < server_indices@.len() ==> server_indices@[k] < 0xffff_ffff,
        ensures
            r.is_ok() <==> (server_indices@.len() == self.spec_w() && indices_distinct(
                server_indices@,
            )),
            r matches Err(e) ==> e == Error::PreconditionViolated,
            r matches Ok(shares) ==> shares_of_polynomial(self, server_indices@, shares@),
            r matches Ok(shares) ==> forall|k: int|
                0 <= k < shares@.len() ==> #[trigger] shares@[k].wf() && shares@[k].fits(),
    {
        let k = server_indices.len();
        if k != self.w as usize {
            return Err(Error::PreconditionViolated);
        }
        let mut i: usize = 0;
        while i < k
            invariant
                k == server_indices@.len(),
                0 <= i <= k,
                forall|a: int, b: int| 0 <= a < b < k && a < i ==> server_indices@[a]
                    != server_indices@[b],
            decreases k - i,
        {
            let mut j: usize = i + 1;
            while j < k
                invariant
                    k == server_indices@.len(),
                    0 <= i < k,
                    i < j <= k,
                    forall|a: int, b: int| 0 <= a < b < k && a < i ==> server_indices@[a]
                        != server_indices@[b],
                    forall|b: int| i < b < j ==> server_indices@[i as int] != server_indices@[b],
                decreases k - j,
            {
                if server_indices[i] == server_indices[j] {
                    return Err(Error::PreconditionViolated);
                }
                j = j + 1;
            }
            i = i + 1;
        }
        let poly = Polynomial::new(&self, rand_state);
        let mut shares: Vec<PrivateKeyShare> = Vec::new();
        let mut t: usize = 0;
        while t < k
            invariant
                k == server_indices@.len(),
                0 <= t <= k,
                poly.wf(),
                poly.spec_sk() == self,
                forall|u: int| 0 <= u < k ==> server_indices@[u] < 0xffff_ffff,
                shares@.len() == t,
                forall|u: int|
                    0 <= u < t ==> #[trigger] shares@[u].spec_i() == server_indices@[u] + 1
                        && shares@[u].spec_si() == poly_eval(
                        poly.spec_coeffs(),
                        (server_indices@[u] + 1) as nat,
                        self.spec_nm(),
                    ) && shares@[u].wf() && shares@[u].fits(),
            decreases k - t,
        {
            let ghost prev_shares = shares@;
            let s = poly.compute(server_indices[t]);
            proof {
                assert(s.spec_i() == server_indices@[t as int] + 1);
                assert(s.spec_si() == poly_eval(
                    poly.spec_coeffs(),
                    (server_indices@[t as int] + 1) as nat,
                    self.spec_nm(),
                ));
                assert(s.wf() && s.fits());
            }
            shares.push(s);
            proof {
                assert(shares@ == prev_shares.push(s));
                assert forall|u: int|
                    0 <= u < t + 1 implies #[trigger] shares@[u].spec_i() == server_indices@[u] + 1
                    && shares@[u].spec_si() == poly_eval(
                    poly.spec_coeffs(),
                    (server_indices@[u] + 1) as nat,
                    self.spec_nm(),
                ) && shares@[u].wf() && shares@[u].fits() by {
                    if u < t {
                        assert(shares@[u] == prev_shares[u]);
                        assert(prev_shares[u].spec_i() == server_indices@[u] + 1);
                    } else {
                        assert(shares@[u] == s);
                    }
                }
            }
            t = t + 1;
        }
        proof {
            let coeffs = poly.spec_coeffs();
            assert(coeffs.len() == self.spec_w() && coeffs.len() > 0 && coeffs[0] == self.spec_d()
                && (forall|j: int| 0 <= j < coeffs.len() ==> coeffs[j] < self.spec_nm())
                && shares@.len() == server_indices@.len() && (forall|u: int|
                0 <= u < server_indices@.len() ==> shares@[u].spec_i() == server_indices@[u] + 1
                    && shares@[u].spec_si() == poly_eval(
                    coeffs,
                    (server_indices@[u] + 1) as nat,
                    self.spec_nm(),
                )));
        }
        Ok(shares)
    }
}

/// The square of a number larger than one is positive.
proof fn lemma_n2_pos(n: nat, n2: nat)
    requires
        n > 1,
        n2 == n * n,
    ensures
        n2 > 1,
{
    assert(n * n > 1) by (nonlinear_arith)
        requires
            n > 1,
    ;
}

/// Computes `l!` as a big integer. The argument is bounded so that the
/// result stays within the arithmetic backend's operand cap.
fn factorial(l: u32) -> (r: BigUint)
    requires
        l <= 0x1f_ffff,
    ensures
        r@ == fact(l as nat),
        r.wf(),
        r.spec_digits().len() <= 4 * (l as nat) + 1,
{
    let mut acc = BigUint::from_u64(1);
    let mut i: u32 = 0;
    while i < l
        invariant
            i <= l,
            l <= 0x1f_ffff,
            acc@ == fact(i as nat),
            acc.wf(),
        decreases l - i,
    {
        i = i + 1;
        proof {
            crate::arith::lemma_fact_bound((i - 1) as nat);
            acc.lemma_len_le_of_value((4 * (i - 1) + 1) as nat);
        }
        let next = big_mul(&acc, &BigUint::from_u64(i as u64));
        proof {
            assert(fact(i as nat) == i * fact((i - 1) as nat));
            assert(fact((i - 1) as nat) * i == i * fact((i - 1) as nat)) by (nonlinear_arith);
        }
        acc = next;
    }
    proof {
        crate::arith::lemma_fact_bound(l as nat);
        acc.lemma_len_le_of_value((4 * l + 1) as nat);
    }
    acc
}

/// Generates a matched key pair over a modulus built from two safe primes
/// of `bits / 2` bits each.
///
/// The returned keys satisfy the generation invariants: `g = n + 1`,
/// `n2 = n^2`, `n` odd, `delta = l!`, `4 * delta^2 * combine_const = 1 mod
/// n`, and the exponent congruences `d = 1 mod n`, `d = 0 mod m`.
pub fn generate_key_pair(bits: usize, decryption_servers: u32, threshold: u32) -> (r: Result<
    (PublicKey, PrivateKey),
    Error,
>)
    requires
        1 <= threshold <= decryption_servers,
        decryption_servers <= 0x1f_ffff,
        bits <= 0xffff_ffff,
    ensures
        r matches Ok(ks) ==> {
            &&& ks.0.wf()
            &&& ks.1.wf()
            &&& ks.0.spec_w() == threshold
            &&& ks.0.spec_l() == decryption_servers
            &&& ks.1.spec_w() == threshold
            &&& ks.1.spec_l() == decryption_servers
            &&& ks.0.spec_n() == ks.1.spec_n()
            &&& ks.0.spec_n2() == ks.1.spec_n2()
            &&& exists|p: nat, q: nat|
                {
                    &&& #[trigger] is_prime(p)
                    &&& #[trigger] is_prime(q)
                    &&& p != q
                    &&& is_prime(((p - 1) / 2) as nat)
                    &&& is_prime(((q - 1) / 2) as nat)
                    &&& p >= pow2((bits / 2 - 1) as nat)
                    &&& q >= pow2((bits / 2 - 1) as nat)
                    &&& ks.0.spec_n() == p * q
                    &&& ks.1.spec_m() == ((p - 1) / 2) * ((q - 1) / 2)
                }
        },
        r matches Err(e) ==> e == Error::PrimeGen || e == Error::NoInverse,
        bits <= 5 ==> (r matches Err(e) && e == Error::PrimeGen),
        (r matches Err(e) && e == Error::NoInverse) ==> exists|p: nat, q: nat|
            {
                &&& #[trigger] is_prime(p)
                &&& #[trigger] is_prime(q)
                &&& p != q
                &&& is_prime(((p - 1) / 2) as nat)
                &&& is_prime(((q - 1) / 2) as nat)
                &&& gcd_nat(
                    4 * fact(decryption_servers as nat) * fact(decryption_servers as nat),
                    p * q,
                ) != 1
            },
{
    let half_bits = bits / 2;
    if half_bits < 3 {
        return Err(Error::PrimeGen);
    }
    let half: u32 = half_bits as u32;
    let one = BigUint::from_u64(1);
    let zero = BigUint::from_u64(0);
    let mut attempts: u64 = 0;
    while attempts < 32
        invariant
            one@ == 1,
            one.wf(),
            zero@ == 0,
            zero.wf(),
            one.spec_digits().len() <= 8,
            zero.spec_digits().len() <= 8,
            3 <= half <= 0x7fff_ffff,
            half == bits / 2,
            1 <= threshold <= decryption_servers,
            decryption_servers <= 0x1f_ffff,
        decreases 32 - attempts,
    {
        attempts = attempts + 1;
        let (p, p1) = match generate_safe_prime(half) {
            Ok(v) => v,
            Err(e) => {
                return Err(e);
            }
        };
        let (q, q1) = match generate_safe_prime(half) {
            Ok(v) => v,
            Err(e) => {
                return Err(e);
            }
        };
        if !big_eq(&p, &q) {
            let n = big_mul(&p, &q);
            let m = big_mul(&p1, &q1);
            proof {
                crate::bignum::lemma_len_of_mul(&n, &p, &q);
                crate::bignum::lemma_len_of_mul(&m, &p1, &q1);
            }
            let gc = big_gcd(&n, &m);
            if big_eq(&gc, &one) {
                proof {
                    lemma_odd_mul(p@, q@);
                    assert(n@ > 1 && m@ > 1) by (nonlinear_arith)
                        requires
                            p@ >= 5,
                            q@ >= 5,
                            p1@ >= 2,
                            q1@ >= 2,
                            n@ == p@ * q@,
                            m@ == p1@ * q1@,
                    ;
                }
                let n2 = big_mul(&n, &n);
                let g = big_add(&n, &one);
                let nm = big_mul(&n, &m);
                proof {
                    crate::bignum::lemma_len_of_mul(&n2, &n, &n);
                    crate::bignum::lemma_len_of_add(&g, &n, &one);
                    crate::bignum::lemma_len_of_mul(&nm, &n, &m);
                }
                let d = crt2(&one, &n, &zero, &m);
                let delta = factorial(decryption_servers);
                let four = BigUint::from_u64(4);
                let fd = big_mul(&four, &delta);
                proof {
                    crate::bignum::lemma_len_of_mul(&fd, &four, &delta);
                }
                let c4d2 = big_mul(&fd, &delta);
                proof {
                    crate::bignum::lemma_len_of_mul(&c4d2, &fd, &delta);
                }
                let cc = match big_invert(&c4d2, &n) {
                    Some(x) => {
                        proof {
                            x.lemma_len_le_of_le(&n);
                        }
                        x
                    },
                    None => {
                        proof {
                            assert(is_prime(p@) && is_prime(q@) && p@ != q@ && is_prime(
                                ((p@ - 1) / 2) as nat,
                            ) && is_prime(((q@ - 1) / 2) as nat) && gcd_nat(
                                4 * fact(decryption_servers as nat) * fact(
                                    decryption_servers as nat,
                                ),
                                p@ * q@,
                            ) != 1);
                        }
                        return Err(Error::NoInverse);
                    }
                };
                proof {
                    vstd::arithmetic::div_mod::lemma_small_mod(1, n@);
                    vstd::arithmetic::div_mod::lemma_small_mod(0, m@);
                    vstd::arithmetic::div_mod::lemma_div_multiples_vanish(m@ as int, n@ as int);
                    assert(nm@ / n@ == m@);
                }
                let pk = PublicKey {
                    w: threshold,
                    l: decryption_servers,
                    n: n.clone(),
                    g,
                    n2: n2.clone(),
                    delta,
                    combine_shares_constant: cc,
                };
                let sk = PrivateKey { w: threshold, l: decryption_servers, d, n, n2, nm };
                proof {
                    assert(is_prime(p@) && is_prime(q@) && p@ != q@ && is_prime(
                        ((p@ - 1) / 2) as nat,
                    ) && is_prime(((q@ - 1) / 2) as nat) && p@ >= pow2((bits / 2 - 1) as nat) && q@
                        >= pow2((bits / 2 - 1) as nat) && pk.spec_n() == p@ * q@ && sk.spec_m()
                        == ((p@ - 1) / 2) * ((q@ - 1) / 2));
                }
                return Ok((pk, sk));
            }
        }
    }
    Err(Error::PrimeGen)
}

impl PublicKey {
    /// Encrypts a plaintext: `c = g^m * r^n mod n^2` for a fresh uniform
    /// `r` in the multiplicative group modulo `n`.
    pub fn encrypt(&self, m: Plaintext, rng: &mut Rng) -> (c: Ciphertext)
        requires
            self.wf(),
            m.fits(),
        ensures
            c.wf(),
            c.fits(),
            exists|rr: nat|
                {
                    &&& 1 <= rr < self.spec_n()
                    &&& #[trigger] gcd_nat(rr, self.spec_n()) == 1
                    &&& c@ == (pow(self.spec_g() as int, m@) * pow(rr as int, self.spec_n())) % (
                    self.spec_n2() as int)
                },
    {
        proof {
            lemma_n2_pos(self.spec_n(), self.spec_n2());
        }
        proof {
            m.lemma_parts();
        }
        let r = random_in_mult_group(&self.n, rng);
        let g_m = big_pow_mod(&self.g, &m.val, &self.n2);
        let r_n = big_pow_mod(&r, &self.n, &self.n2);
        proof {
            g_m.lemma_len_le_of_le(&self.n2);
            r_n.lemma_len_le_of_le(&self.n2);
        }
        let prod = big_mul(&g_m, &r_n);
        proof {
            crate::bignum::lemma_len_of_mul(&prod, &g_m, &r_n);
        }
        let c = big_rem(&prod, &self.n2);
        proof {
            c.lemma_len_le_of_le(&self.n2);
            vstd::arithmetic::div_mod::lemma_mul_mod_noop_general(
                pow(self.spec_g() as int, m@),
                pow(r@ as int, self.spec_n()),
                self.spec_n2() as int,
            );
            assert(1 <= r@ < self.spec_n() && gcd_nat(r@, self.spec_n()) == 1 && c@ == (pow(
                self.spec_g() as int,
                m@,
            ) * pow(r@ as int, self.spec_n())) % (self.spec_n2() as int));
        }
        let r2 = Ciphertext { val: c };
        proof {
            r2.lemma_parts();
        }
        r2
    }

    /// Multiplies a fresh encryption of zero into the ciphertext, leaving
    /// the plaintext unchanged while re-randomizing the ciphertext.
    pub fn reencrypt(&self, cipher: &mut Ciphertext, rng: &mut Rng)
        requires
            self.wf(),
            old(cipher).fits(),
        ensures
            final(cipher).wf(),
            final(cipher).fits(),
            exists|rr: nat|
                {
                    &&& 1 <= rr < self.spec_n()
                    &&& #[trigger] gcd_nat(rr, self.spec_n()) == 1
                    &&& final(cipher)@ == (old(cipher)@ * pow(rr as int, self.spec_n())) % (
                    self.spec_n2() as int)
                },
    {
        proof {
            lemma_n2_pos(self.spec_n(), self.spec_n2());
        }
        proof {
            old(cipher).lemma_parts();
        }
        let r = random_in_mult_group(&self.n, rng);
        let r_n = big_pow_mod(&r, &self.n, &self.n2);
        proof {
            r_n.lemma_len_le_of_le(&self.n2);
        }
        let prod = big_mul(&cipher.val, &r_n);
        proof {
            crate::bignum::lemma_len_of_mul(&prod, &cipher.val, &r_n);
        }
        let c = big_rem(&prod, &self.n2);
        proof {
            c.lemma_len_le_of_le(&self.n2);
            vstd::arithmetic::div_mod::lemma_mul_mod_noop_right(
                old(cipher)@ as int,
                pow(r@ as int, self.spec_n()),
                self.spec_n2() as int,
            );
        }
        cipher.val = c;
        proof {
            cipher.lemma_parts();
            assert(1 <= r@ < self.spec_n() && gcd_nat(r@, self.spec_n()) == 1 && cipher@ == (old(
                cipher,
            )@ * pow(r@ as int, self.spec_n())) % (self.spec_n2() as int));
        }
    }

    /// Adds a plaintext into the ciphertext: `c = c * g^p mod n^2`.
    pub fn add_plain(&self, cipher: &mut Ciphertext, plain: &Plaintext)
        requires
            self.wf(),
            old(cipher).fits(),
            plain.fits(),
        ensures
            final(cipher).wf(),
            final(cipher).fits(),
            final(cipher)@ == (old(cipher)@ * pow(self.spec_g() as int, plain@)) % (
            self.spec_n2() as int),
    {
        proof {
            lemma_n2_pos(self.spec_n(), self.spec_n2());
        }
        proof {
            old(cipher).lemma_parts();
            plain.lemma_parts();
        }
        let tmp = big_pow_mod(&self.g, &plain.val, &self.n2);
        proof {
            tmp.lemma_len_le_of_le(&self.n2);
        }
        let prod = big_mul(&cipher.val, &tmp);
        proof {
            crate::bignum::lemma_len_of_mul(&prod, &cipher.val, &tmp);
        }
        let c = big_rem(&prod, &self.n2);
        proof {
            c.lemma_len_le_of_le(&self.n2);
            vstd::arithmetic::div_mod::lemma_mul_mod_noop_right(
                old(cipher)@ as int,
                pow(self.spec_g() as int, plain@),
                self.spec_n2() as int,
            );
        }
        cipher.val = c;
        proof {
            cipher.lemma_parts();
        }
    }

    /// Adds two ciphertexts: `c1 = c1 * c2 mod n^2`, so the plaintexts
    /// add modulo `n`.
    pub fn add_encrypted(&self, cipher1: &mut Ciphertext, cipher2: &Ciphertext)
        requires
            self.wf(),
            old(cipher1).fits(),
            cipher2.fits(),
        ensures
            final(cipher1).wf(),
            final(cipher1).fits(),
            final(cipher1)@ == ((old(cipher1)@ * cipher2@) as int) % (self.spec_n2() as int),
    {
        proof {
            lemma_n2_pos(self.spec_n(), self.spec_n2());
        }
        proof {
            old(cipher1).lemma_parts();
            cipher2.lemma_parts();
        }
        let prod = big_mul(&cipher1.val, &cipher2.val);
        proof {
            crate::bignum::lemma_len_of_mul(&prod, &cipher1.val, &cipher2.val);
        }
        let c = big_rem(&prod, &self.n2);
        proof {
            c.lemma_len_le_of_le(&self.n2);
        }
        cipher1.val = c;
        proof {
            cipher1.lemma_parts();
        }
    }

    /// Multiplies the plaintext by a scalar: `c = c^k mod n^2`.
    pub fn mul_plain(&self, cipher: &mut Ciphertext, plain: &Plaintext)
        requires
            self.wf(),
            old(cipher).fits(),
            plain.fits(),
        ensures
            final(cipher).wf(),
            final(cipher).fits(),
            final(cipher)@ == pow(old(cipher)@ as int, plain@) % (self.spec_n2() as int),
    {
        proof {
            lemma_n2_pos(self.spec_n(), self.spec_n2());
        }
        proof {
            old(cipher).lemma_parts();
            plain.lemma_parts();
        }
        let c = big_pow_mod(&cipher.val, &plain.val, &self.n2);
        proof {
            c.lemma_len_le_of_le(&self.n2);
        }
        cipher.val = c;
        proof {
            cipher.lemma_parts();
        }
    }
}

/// The factor a share contributes to every other share's Lagrange
/// numerator: the negation of its one-based index.
pub open spec fn f_neg() -> spec_fn(PartialDecryption) -> int {
    |o: PartialDecryption| -(o.spec_id() as int)
}

/// The factor a share contributes to the Lagrange denominator of the
/// share with index `id`.
pub open spec fn f_diff(id: nat) -> spec_fn(PartialDecryption) -> int {
    |o: PartialDecryption| id as int - o.spec_id() as int
}

/// The one-based index of a share, as a mapped value.
pub open spec fn f_sh_id() -> spec_fn(PartialDecryption) -> nat {
    |sh: PartialDecryption| sh.spec_id()
}

/// The identity on integers, for products of precomputed contributions.
pub open spec fn f_id() -> spec_fn(int) -> int {
    |c: int| c
}

/// The delta-scaled Lagrange coefficient of the share `sh` against the
/// other shares: `delta * prod(-id_j) / prod(id - id_j)`, the division
/// truncating toward zero.
pub open spec fn lagrange_lambda(
    delta: nat,
    sh: PartialDecryption,
    others: Multiset<PartialDecryption>,
) -> int {
    tdiv(delta * prod_ms(others, f_neg()), prod_ms(others, f_diff(sh.spec_id())))
}

/// One share's multiplicative contribution to the combined ciphertext:
/// its value raised to twice its Lagrange coefficient modulo `n^2`, going
/// through a modular inverse when the coefficient is negative.
pub open spec fn share_contrib(
    pk: PublicKey,
    sh: PartialDecryption,
    others: Multiset<PartialDecryption>,
) -> int {
    let lam = lagrange_lambda(pk.spec_delta(), sh, others);
    if lam >= 0 {
        pow(sh.spec_val() as int, (2 * lam) as nat) % (pk.spec_n2() as int)
    } else {
        inv_mod(
            (pow(sh.spec_val() as int, (2 * -lam) as nat) % (pk.spec_n2() as int)) as nat,
            pk.spec_n2(),
        ) as int
    }
}

/// The contribution of one share drawn from the multiset `m` of all
/// supplied shares.
pub open spec fn contrib_fn(pk: PublicKey, m: Multiset<PartialDecryption>) -> spec_fn(
    PartialDecryption,
) -> int {
    |sh: PartialDecryption| share_contrib(pk, sh, m.remove(sh))
}

/// The modular inverse needed by `sh`'s contribution exists whenever its
/// Lagrange coefficient is negative.
pub open spec fn share_invertible(
    pk: PublicKey,
    sh: PartialDecryption,
    others: Multiset<PartialDecryption>,
) -> bool {
    let lam = lagrange_lambda(pk.spec_delta(), sh, others);
    lam < 0 ==> gcd_nat(
        (pow(sh.spec_val() as int, (2 * -lam) as nat) % (pk.spec_n2() as int)) as nat,
        pk.spec_n2(),
    ) == 1
}

/// Every share of the multiset can contribute: no negative coefficient
/// meets a value without an inverse modulo `n^2`.
pub open spec fn combine_invertible(pk: PublicKey, m: Multiset<PartialDecryption>) -> bool {
    forall|sh: PartialDecryption| #[trigger]
        m.count(sh) > 0 ==> share_invertible(pk, sh, m.remove(sh))
}

/// No share id occurs twice.
pub open spec fn ids_distinct(shares: Seq<PartialDecryption>) -> bool {
    forall|i: int, j: int|
        0 <= i < j < shares.len() ==> shares[i].spec_id() != shares[j].spec_id()
}

/// The combined ciphertext: the product of every share's contribution,
/// modulo `n^2`. It depends only on the multiset of shares.
pub open spec fn combine_cprime(pk: PublicKey, shares: Seq<PartialDecryption>) -> int {
    prod_ms(shares.map_values(contrib_fn(pk, shares.to_multiset())).to_multiset(), f_id()) % (
    pk.spec_n2() as int)
}

/// The recovered plaintext: the discrete logarithm `(c' - 1) / n` of the
/// combined ciphertext, times the precomputed `(4 * delta^2)^{-1}`,
/// modulo `n`.
pub open spec fn combine_value(pk: PublicKey, shares: Seq<PartialDecryption>) -> int {
    (tdiv(combine_cprime(pk, shares) - 1, pk.spec_n() as int) * pk.spec_combine_const()) % (
    pk.spec_n() as int)
}

impl PublicKey {
    /// Combines partial decryptions into the plaintext: each share is
    /// weighted by its delta-scaled Lagrange coefficient in the exponent,
    /// the results are multiplied modulo `n^2`, and the plaintext is read
    /// off the `1 + n` subgroup structure. The share ids must be
    /// distinct; shares carrying values without a needed inverse are
    /// reported as `NoInverse`.
    pub fn share_combine(&self, shares: &[PartialDecryption]) -> (r: Result<Plaintext, Error>)
        requires
            self.wf(),
            shares@.len() <= 0xff_ffff,
            forall|t: int| 0 <= t < shares@.len() ==> (#[trigger] shares@[t]).fits(),
        ensures
            r matches Err(e) ==> e == Error::PreconditionViolated || e == Error::NoInverse,
            (r matches Err(e) && e == Error::PreconditionViolated) <==> !ids_distinct(shares@),
            r.is_ok() <==> (ids_distinct(shares@) && combine_invertible(
                *self,
                shares@.to_multiset(),
            )),
            r matches Ok(p) ==> p@ == combine_value(*self, shares@) && p.wf() && p.fits(),
    {
        broadcast use vstd::seq_lib::group_to_multiset_ensures;
        broadcast use vstd::multiset::group_multiset_axioms;

        let ghost m_all = shares@.to_multiset();
        let ghost cfn = contrib_fn(*self, m_all);
        let ghost n2v = self.spec_n2() as int;
        let ghost nv = self.spec_n() as int;
        let ghost deltav = self.spec_delta();
        proof {
            lemma_n2_pos(self.spec_n(), self.spec_n2());
        }
        let k = shares.len();
        let mut i: usize = 0;
        while i < k
            invariant
                k == shares@.len(),
                0 <= i <= k,
                forall|a: int, b: int|
                    0 <= a < b < k && a < i ==> shares@[a].spec_id() != shares@[b].spec_id(),
            decreases k - i,
        {
            let mut j: usize = i + 1;
            while j < k
                invariant
                    k == shares@.len(),
                    0 <= i < k,
                    i < j <= k,
                    forall|a: int, b: int|
                        0 <= a < b < k && a < i ==> shares@[a].spec_id() != shares@[b].spec_id(),
                    forall|b: int| i < b < j ==> shares@[i as int].spec_id() != shares@[b].spec_id(),
                decreases k - j,
            {
                if shares[i].id == shares[j].id {
                    return Err(Error::PreconditionViolated);
                }
                j = j + 1;
            }
            i = i + 1;
        }
        assert(ids_distinct(shares@));
        let one = BigUint::from_u64(1);
        let zero = BigUint::from_u64(0);
        let two = BigUint::from_u64(2);
        let mut cp = BigUint::from_u64(1);
        let ghost mut cs: Seq<int> = Seq::empty();
        proof {
            assert(shares@.subrange(0, 0).map_values(cfn) =~= Seq::<int>::empty());
            assert(cs.to_multiset().len() == 0);
            vstd::arithmetic::div_mod::lemma_small_mod(1, self.spec_n2());
        }
        let mut i: usize = 0;
        while i < k
            invariant
                self.wf(),
                k == shares@.len(),
                0 <= i <= k,
                m_all == shares@.to_multiset(),
                cfn == contrib_fn(*self, m_all),
                n2v == self.spec_n2() as int,
                deltav == self.spec_delta(),
                n2v > 1,
                ids_distinct(shares@),
                shares@.len() <= 0xff_ffff,
                forall|t: int| 0 <= t < shares@.len() ==> (#[trigger] shares@[t]).fits(),
                one@ == 1 && one.wf(),
                zero@ == 0 && zero.wf(),
                two@ == 2 && two.wf(),
                one.spec_digits().len() <= 8,
                zero.spec_digits().len() <= 8,
                two.spec_digits().len() <= 8,
                cs == shares@.subrange(0, i as int).map_values(cfn),
                cp@ == prod_ms(cs.to_multiset(), f_id()) % n2v,
                cp.wf(),
                cp.spec_digits().len() <= 0x4000_0000,
                forall|t: int|
                    0 <= t < i ==> share_invertible(
                        *self,
                        #[trigger] shares@[t],
                        m_all.remove(shares@[t]),
                    ),
            decreases k - i,
        {
            broadcast use vstd::seq_lib::group_to_multiset_ensures;
            broadcast use vstd::multiset::group_multiset_axioms;

            let si_id: u32 = shares[i].id;
            let mut num_mag = self.delta.clone();
            let mut num_neg = false;
            let mut den_mag = one.clone();
            let mut den_neg = false;
            let ghost mut others: Seq<PartialDecryption> = Seq::empty();
            proof {
                assert(others.to_multiset().len() == 0);
                assert(prod_ms(others.to_multiset(), f_neg()) == 1);
                assert(prod_ms(others.to_multiset(), f_diff(shares@[i as int].spec_id())) == 1);
            }
            let mut j: usize = 0;
            while j < k
                invariant
                    self.wf(),
                    k == shares@.len(),
                    0 <= i < k,
                    0 <= j <= k,
                    ids_distinct(shares@),
                    si_id == shares@[i as int].id,
                    deltav == self.spec_delta(),
                    shares@.len() <= 0xff_ffff,
                    one@ == 1 && one.wf(),
                    num_mag.wf(),
                    den_mag.wf(),
                    den_mag@ > 0,
                    num_mag.spec_digits().len() <= self.delta.spec_digits().len() + 8 * j,
                    den_mag.spec_digits().len() <= 8 + 8 * j,
                    others == if j <= i {
                        shares@.subrange(0, j as int)
                    } else {
                        shares@.subrange(0, j as int).remove(i as int)
                    },
                    signed(num_neg, num_mag@) == deltav * prod_ms(others.to_multiset(), f_neg()),
                    signed(den_neg, den_mag@) == prod_ms(
                        others.to_multiset(),
                        f_diff(shares@[i as int].spec_id()),
                    ),
                decreases k - j,
            {
                broadcast use vstd::seq_lib::group_to_multiset_ensures;
                broadcast use vstd::multiset::group_multiset_axioms;

                if j != i {
                    let sj_id: u32 = shares[j].id;
                    let ghost sh_j = shares@[j as int];
                    let ghost prev_others = others;
                    let ghost prev_num_neg = num_neg;
                    let ghost prev_num_mag = num_mag@;
                    let ghost prev_den_neg = den_neg;
                    let ghost prev_den_mag = den_mag@;
                    let ghost prev_num_b = num_mag;
                    let ghost prev_den_b = den_mag;
                    let idb = BigUint::from_u64(sj_id as u64);
                    num_mag = big_mul(&num_mag, &idb);
                    proof {
                        crate::bignum::lemma_len_of_mul(&num_mag, &prev_num_b, &idb);
                    }
                    num_neg = !num_neg;
                    let diff: u32 = if si_id >= sj_id {
                        si_id - sj_id
                    } else {
                        sj_id - si_id
                    };
                    proof {
                        if i < j {
                            assert(shares@[i as int].spec_id() != shares@[j as int].spec_id());
                        } else {
                            assert(shares@[j as int].spec_id() != shares@[i as int].spec_id());
                        }
                        assert(diff > 0);
                    }
                    let diffb = BigUint::from_u64(diff as u64);
                    den_mag = big_mul(&den_mag, &diffb);
                    proof {
                        crate::bignum::lemma_len_of_mul(&den_mag, &prev_den_b, &diffb);
                    }
                    den_neg = den_neg != (si_id < sj_id);
                    proof {
                        others = prev_others.push(sh_j);
                        if j < i {
                            assert(others =~= shares@.subrange(0, j + 1));
                        } else {
                            assert(others =~= shares@.subrange(0, j + 1).remove(i as int));
                        }
                        let id_i = shares@[i as int].spec_id();
                        let np = prod_ms(prev_others.to_multiset(), f_neg());
                        let dp = prod_ms(prev_others.to_multiset(), f_diff(id_i));
                        lemma_prod_ms_insert(prev_others.to_multiset(), f_neg(), sh_j);
                        lemma_prod_ms_insert(prev_others.to_multiset(), f_diff(id_i), sh_j);
                        assert(others.to_multiset() =~= prev_others.to_multiset().insert(sh_j));
                        assert(f_neg()(sh_j) == -(sh_j.spec_id() as int));
                        assert(f_diff(id_i)(sh_j) == id_i as int - sh_j.spec_id() as int);
                        assert(-(sj_id as int) == signed(true, sj_id as nat));
                        lemma_signed_mul(prev_num_neg, prev_num_mag, true, sj_id as nat);
                        assert(signed(num_neg, num_mag@) == signed(prev_num_neg, prev_num_mag) * (-(
                        sj_id as int)));
                        assert(deltav * ((-(sj_id as int)) * np) == (deltav * np) * (-(
                        sj_id as int))) by (nonlinear_arith);
                        assert(signed(num_neg, num_mag@) == deltav * prod_ms(
                            others.to_multiset(),
                            f_neg(),
                        ));
                        assert(id_i as int - sh_j.spec_id() as int == signed(
                            si_id < sj_id,
                            diff as nat,
                        ));
                        lemma_signed_mul(prev_den_neg, prev_den_mag, si_id < sj_id, diff as nat);
                        assert(signed(den_neg, den_mag@) == signed(prev_den_neg, prev_den_mag) * (
                        id_i as int - sh_j.spec_id() as int));
                        assert(dp * (id_i as int - sh_j.spec_id() as int) == (id_i as int
                            - sh_j.spec_id() as int) * dp) by (nonlinear_arith);
                        assert(signed(den_neg, den_mag@) == prod_ms(
                            others.to_multiset(),
                            f_diff(id_i),
                        ));
                        assert(den_mag@ == prev_den_mag * (diff as nat));
                        assert(prev_den_mag * (diff as nat) > 0) by (nonlinear_arith)
                            requires
                                prev_den_mag > 0,
                                diff > 0,
                        ;
                    }
                } else {
                    proof {
                        if j == i {
                            assert(others =~= shares@.subrange(0, j + 1).remove(i as int));
                        }
                    }
                }
                j = j + 1;
            }
            let ghost others_ms = others.to_multiset();
            let ghost sh_i = shares@[i as int];
            proof {
                assert(others =~= shares@.remove(i as int)) by {
                    assert(shares@.subrange(0, k as int) =~= shares@);
                }
                assert(others.to_multiset() == m_all.remove(sh_i));
            }
            proof {
                assert(num_mag.spec_digits().len() < 0x8000_0000);
                assert(den_mag.spec_digits().len() < 0x8000_0000);
            }
            let lam_mag = crate::bignum::big_div(&num_mag, &den_mag);
            proof {
                vstd::arithmetic::div_mod::lemma_div_nonincreasing(
                    num_mag@ as int,
                    den_mag@ as int,
                );
                lam_mag.lemma_len_le_of_le(&num_mag);
            }
            let lam_neg = num_neg != den_neg;
            let ghost lam = lagrange_lambda(deltav, sh_i, others_ms);
            proof {
                lemma_tdiv_signed(num_neg, num_mag@, den_neg, den_mag@);
                assert(lam == signed(lam_neg, lam_mag@));
            }
            let lam2 = big_mul(&lam_mag, &two);
            proof {
                crate::bignum::lemma_len_of_mul(&lam2, &lam_mag, &two);
                assert(shares@[i as int].fits());
            }
            let powed = big_pow_mod(&shares[i].val, &lam2, &self.n2);
            proof {
                powed.lemma_len_le_of_le(&self.n2);
            }
            let ghost cv = share_contrib(*self, sh_i, others_ms);
            let contrib_val: BigUint;
            if lam_neg && !big_eq(&lam_mag, &zero) {
                proof {
                    assert(lam < 0);
                    assert((2 * -lam) as nat == lam2@);
                }
                match big_invert(&powed, &self.n2) {
                    Some(x) => {
                        proof {
                            x.lemma_len_le_of_le(&self.n2);
                            crate::arith::lemma_inv_mod_is(powed@, self.spec_n2(), x@);
                            assert(cv == x@);
                            assert(share_invertible(*self, sh_i, others_ms));
                        }
                        contrib_val = x;
                    }
                    None => {
                        proof {
                            assert(!share_invertible(*self, sh_i, others_ms));
                            assert(m_all.count(sh_i) > 0) by {
                                assert(shares@.contains(sh_i));
                            }
                            assert(!combine_invertible(*self, m_all));
                        }
                        return Err(Error::NoInverse);
                    }
                }
            } else {
                proof {
                    assert(lam >= 0);
                    assert((2 * lam) as nat == lam2@);
                    assert(cv == powed@);
                    assert(share_invertible(*self, sh_i, others_ms));
                }
                contrib_val = powed;
            }
            proof {
                assert(0 <= cv < n2v);
            }
            let ghost prev_cs = cs;
            let ghost prev_cp = cp@;
            let ghost prev_cp_b = cp;
            let cprod = big_mul(&cp, &contrib_val);
            proof {
                crate::bignum::lemma_len_of_mul(&cprod, &prev_cp_b, &contrib_val);
            }
            cp = big_rem(&cprod, &self.n2);
            proof {
                cp.lemma_len_le_of_le(&self.n2);
                cs = prev_cs.push(cv);
                assert(cfn(sh_i) == cv);
                assert(shares@.subrange(0, i + 1) =~= shares@.subrange(0, i as int).push(sh_i));
                assert(cs =~= shares@.subrange(0, i + 1).map_values(cfn));
                let pp = prod_ms(prev_cs.to_multiset(), f_id());
                lemma_prod_ms_insert(prev_cs.to_multiset(), f_id(), cv);
                assert(cs.to_multiset() =~= prev_cs.to_multiset().insert(cv));
                assert(f_id()(cv) == cv);
                vstd::arithmetic::div_mod::lemma_mul_mod_noop_left(pp, cv, n2v);
                assert(cp@ == ((pp % n2v) * cv) % n2v);
                assert(pp * cv == cv * pp) by (nonlinear_arith);
                assert(cp@ == prod_ms(cs.to_multiset(), f_id()) % n2v);
            }
            i = i + 1;
        }
        proof {
            assert(shares@.subrange(0, k as int) =~= shares@);
            assert(cp@ == combine_cprime(*self, shares@));
            assert forall|sh: PartialDecryption| #[trigger]
                m_all.count(sh) > 0 implies share_invertible(*self, sh, m_all.remove(sh)) by {
                assert(shares@.contains(sh));
                let t = choose|t: int| 0 <= t < shares@.len() && shares@[t] == sh;
                assert(share_invertible(*self, shares@[t], m_all.remove(shares@[t])));
            }
            assert(combine_invertible(*self, m_all));
        }
        let t = if big_eq(&cp, &zero) {
            proof {
                vstd::arithmetic::div_mod::lemma_basic_div(1, nv);
                assert(tdiv(cp@ - 1, nv) == 0);
            }
            BigUint::from_u64(0)
        } else {
            let pm1 = crate::bignum::big_sub(&cp, &one);
            proof {
                pm1.lemma_len_le_of_le(&cp);
            }
            let d = crate::bignum::big_div(&pm1, &self.n);
            proof {
                vstd::arithmetic::div_mod::lemma_div_nonincreasing(pm1@ as int, nv);
                d.lemma_len_le_of_le(&pm1);
                assert(tdiv(cp@ - 1, nv) == (cp@ - 1) / nv);
                assert(d@ == tdiv(cp@ - 1, nv));
            }
            d
        };
        let tprod = big_mul(&t, &self.combine_shares_constant);
        proof {
            crate::bignum::lemma_len_of_mul(&tprod, &t, &self.combine_shares_constant);
        }
        let rop = big_rem(&tprod, &self.n);
        proof {
            rop.lemma_len_le_of_le(&self.n);
            assert(rop@ == combine_value(*self, shares@));
        }
        let result = Plaintext { val: rop };
        proof {
            result.lemma_parts();
        }
        Ok(result)
    }
}

/// Share-order invariance: combining any permutation of a share list
/// yields the same plaintext, the same combined ciphertext, and the same
/// duplicate-id verdict.
pub proof fn lemma_share_combine_order_invariant(
    pk: PublicKey,
    s1: Seq<PartialDecryption>,
    s2: Seq<PartialDecryption>,
)
    requires
        s1.to_multiset() == s2.to_multiset(),
    ensures
        combine_cprime(pk, s1) == combine_cprime(pk, s2),
        combine_value(pk, s1) == combine_value(pk, s2),
        ids_distinct(s1) == ids_distinct(s2),
        combine_invertible(pk, s1.to_multiset()) == combine_invertible(pk, s2.to_multiset()),
{
    broadcast use vstd::seq_lib::group_to_multiset_ensures;
    broadcast use vstd::multiset::group_multiset_axioms;

    crate::arith::lemma_map_values_multiset(s1, s2, contrib_fn(pk, s1.to_multiset()));
    assert(s1.map_values(contrib_fn(pk, s1.to_multiset())).to_multiset() == s2.map_values(
        contrib_fn(pk, s2.to_multiset()),
    ).to_multiset());
    crate::arith::lemma_map_values_multiset(s1, s2, f_sh_id());
    let ids1 = s1.map_values(f_sh_id());
    let ids2 = s2.map_values(f_sh_id());
    assert(ids_distinct(s1) == ids1.no_duplicates()) by {
        lemma_ids_distinct_is_no_duplicates(s1);
    }
    assert(ids_distinct(s2) == ids2.no_duplicates()) by {
        lemma_ids_distinct_is_no_duplicates(s2);
    }
    if ids1.no_duplicates() {
        ids1.lemma_multiset_has_no_duplicates();
        ids2.lemma_multiset_has_no_duplicates_conv();
    }
    if ids2.no_duplicates() {
        ids2.lemma_multiset_has_no_duplicates();
        ids1.lemma_multiset_has_no_duplicates_conv();
    }
}

/// The `1 + n` subgroup structure that share combination reads off:
/// raising the generator `g = n + 1` to any power lands on `1 + x * n`
/// modulo `n^2`, so the two standard forms of Paillier encryption agree.
pub proof fn lemma_generator_pow(n: nat, x: nat)
    requires
        n >= 1,
    ensures
        pow(n as int + 1, x) % ((n * n) as int) == (1 + x * n) as int % ((n * n) as int),
    decreases x,
{
    let n2 = (n * n) as int;
    assert((n * n) as int > 0) by (nonlinear_arith)
        requires
            n >= 1,
    ;
    if x == 0 {
        vstd::arithmetic::power::lemma_pow0(n as int + 1);
    } else {
        lemma_generator_pow(n, (x - 1) as nat);
        assert(pow(n as int + 1, x) == (n as int + 1) * pow(n as int + 1, (x - 1) as nat)) by {
            vstd::arithmetic::power::lemma_pow1(n as int + 1);
            vstd::arithmetic::power::lemma_pow_adds(n as int + 1, 1, (x - 1) as nat);
        }
        vstd::arithmetic::div_mod::lemma_mul_mod_noop_right(
            n as int + 1,
            pow(n as int + 1, (x - 1) as nat),
            n2,
        );
        vstd::arithmetic::div_mod::lemma_mul_mod_noop_right(
            n as int + 1,
            1 + (x - 1) * n,
            n2,
        );
        assert((n as int + 1) * (1 + (x - 1) * n) == n2 * (x - 1) + (1 + x * n))
            by (nonlinear_arith)
            requires
                n2 == n * n,
                x >= 1,
        ;
        vstd::arithmetic::div_mod::lemma_mod_multiples_vanish(x - 1, (1 + x * n) as int, n2);
    }
}

/// The extraction step of share combination: whenever the combined
/// ciphertext lands on `1 + (4 * delta^2 * msg) * n` in the `1 + n`
/// subgroup of `Z_{n^2}`, reading off the discrete logarithm and
/// multiplying by the precomputed `(4 * delta^2)^{-1}` recovers exactly
/// `msg` modulo `n`.
pub proof fn lemma_combine_extracts(pk: PublicKey, shares: Seq<PartialDecryption>, msg: nat)
    requires
        pk.wf(),
        combine_cprime(pk, shares) == ((1 + (4 * pk.spec_delta() * pk.spec_delta() * msg)
            * pk.spec_n()) as int) % (pk.spec_n2() as int),
    ensures
        combine_value(pk, shares) == msg % pk.spec_n(),
{
    let n = pk.spec_n() as int;
    let n2 = pk.spec_n2() as int;
    let cc = pk.spec_combine_const() as int;
    let dd = pk.spec_delta() as int;
    let t = 4 * dd * dd * msg;
    let cp = combine_cprime(pk, shares);
    lemma_n2_pos(pk.spec_n(), pk.spec_n2());
    vstd::arithmetic::div_mod::lemma_fundamental_div_mod(t, n);
    vstd::arithmetic::div_mod::lemma_mod_bound(t, n);
    let q = t / n;
    let r = t % n;
    assert((1 + t * n) == n2 * q + (1 + r * n)) by (nonlinear_arith)
        requires
            t == q * n + r,
            n2 == n * n,
    ;
    assert(cp == ((1 + t * n)) % n2) by {
        assert(((1 + (4 * pk.spec_delta() * pk.spec_delta() * msg) * pk.spec_n()) as int) == 1 + t
            * n);
    }
    vstd::arithmetic::div_mod::lemma_mod_multiples_vanish(q, 1 + r * n, n2);
    assert((n2 * q + (1 + r * n)) % n2 == (1 + r * n) % n2);
    assert(0 <= 1 + r * n < n2) by (nonlinear_arith)
        requires
            0 <= r < n,
            n > 1,
            n2 == n * n,
    ;
    vstd::arithmetic::div_mod::lemma_small_mod((1 + r * n) as nat, n2 as nat);
    assert(cp == 1 + r * n);
    assert(tdiv(cp - 1, n) == r) by {
        assert(cp - 1 == n * r) by (nonlinear_arith)
            requires
                cp == 1 + r * n,
        ;
        vstd::arithmetic::div_mod::lemma_div_multiples_vanish(r, n);
        vstd::arithmetic::div_mod::lemma_div_pos_is_pos(cp - 1, n);
    }
    assert((r * cc) % n == (t * cc) % n) by {
        vstd::arithmetic::div_mod::lemma_mul_mod_noop_left(t, cc, n);
    }
    assert(t * cc == msg * (4 * dd * dd * cc)) by (nonlinear_arith)
        requires
            t == 4 * dd * dd * msg,
    ;
    assert((msg * (4 * dd * dd * cc)) % n == (msg * ((4 * dd * dd * cc) % n)) % n) by {
        vstd::arithmetic::div_mod::lemma_mul_mod_noop_right(msg as int, 4 * dd * dd * cc, n);
    }
    assert((4 * dd * dd * cc) % n == 1) by {
        assert(4 * pk.spec_delta() * pk.spec_delta() * pk.spec_combine_const() == (4 * dd * dd
            * cc) as nat);
    }
}

/// Combining a single partial decryption always succeeds and multiplies
/// nothing but that share's own contribution: its Lagrange coefficient is
/// `delta` itself, so the combined ciphertext is the share's value raised
/// to `2 * delta` modulo `n^2`.
pub proof fn lemma_combine_single(pk: PublicKey, pd: PartialDecryption)
    requires
        pk.wf(),
    ensures
        combine_cprime(pk, seq![pd]) == pow(pd.spec_val() as int, (2 * pk.spec_delta()) as nat) % (
        pk.spec_n2() as int),
        ids_distinct(seq![pd]),
        combine_invertible(pk, seq![pd].to_multiset()),
{
    broadcast use vstd::seq_lib::group_to_multiset_ensures;
    broadcast use vstd::multiset::group_multiset_axioms;

    let s = seq![pd];
    let m_all = s.to_multiset();
    let n2 = pk.spec_n2() as int;
    lemma_n2_pos(pk.spec_n(), pk.spec_n2());
    assert(s[0] == pd);
    assert(s.contains(pd));
    assert(m_all.count(pd) > 0);
    assert(s.remove(0) =~= Seq::<PartialDecryption>::empty());
    assert(s.remove(0).to_multiset() == m_all.remove(pd));
    assert(m_all.remove(pd).len() == 0);
    let others = m_all.remove(pd);
    assert(prod_ms(others, f_neg()) == 1);
    assert(prod_ms(others, f_diff(pd.spec_id())) == 1);
    let dd = pk.spec_delta() as int;
    assert(lagrange_lambda(pk.spec_delta(), pd, others) == dd) by {
        assert(dd * 1 == dd);
        vstd::arithmetic::div_mod::lemma_basic_div(0, 1);
        assert(dd / 1 == dd) by {
            vstd::arithmetic::div_mod::lemma_div_basics(dd);
        }
    }
    let cv = share_contrib(pk, pd, others);
    assert(cv == pow(pd.spec_val() as int, (2 * dd) as nat) % n2);
    let cfn = contrib_fn(pk, m_all);
    assert(cfn(pd) == cv);
    assert(s.map_values(cfn) =~= seq![cv]);
    assert(seq![cv] =~= Seq::<int>::empty().push(cv));
    assert(seq![cv].to_multiset() == Seq::<int>::empty().to_multiset().insert(cv));
    assert(Seq::<int>::empty().to_multiset().len() == 0);
    crate::arith::lemma_prod_ms_insert(Seq::<int>::empty().to_multiset(), f_id(), cv);
    assert(prod_ms(seq![cv].to_multiset(), f_id()) == cv) by {
        assert(f_id()(cv) == cv);
        assert(prod_ms(Seq::<int>::empty().to_multiset(), f_id()) == 1);
    }
    vstd::arithmetic::div_mod::lemma_mod_twice(
        pow(pd.spec_val() as int, (2 * dd) as nat),
        n2,
    );
    assert forall|sh: PartialDecryption| #[trigger]
        m_all.count(sh) > 0 implies share_invertible(pk, sh, m_all.remove(sh)) by {
        assert(sh == pd);
    }
}

/// Chaining one partial decryption into combination raises the original
/// ciphertext to `4 * delta^2 * s_i` modulo `n^2`. Together with
/// `lemma_combine_extracts`, single-share decryption recovers `msg`
/// exactly when that power lands on `1 + 4 * delta^2 * msg * n` in
/// `Z_{n^2}`.
pub proof fn lemma_single_share_exponent(pk: PublicKey, pd: PartialDecryption, c: nat, si: nat)
    requires
        pk.wf(),
        pd.spec_val() == pow(c as int, (si * pk.spec_delta() * 2) as nat) % (pk.spec_n2() as int),
    ensures
        combine_cprime(pk, seq![pd]) == pow(
            c as int,
            (4 * pk.spec_delta() * pk.spec_delta() * si) as nat,
        ) % (pk.spec_n2() as int),
{
    lemma_combine_single(pk, pd);
    let n2 = pk.spec_n2() as int;
    let dd = pk.spec_delta();
    let e1 = (si * dd * 2) as nat;
    let e2 = (2 * dd) as nat;
    lemma_n2_pos(pk.spec_n(), pk.spec_n2());
    vstd::arithmetic::power::lemma_pow_mod_noop(pow(c as int, e1), e2, n2);
    vstd::arithmetic::power::lemma_pow_multiplies(c as int, e1, e2);
    assert((si * dd * 2) * (2 * dd) == 4 * dd * dd * si) by (nonlinear_arith);
}

/// Distinctness of share ids is exactly distinctness of the id sequence.
proof fn lemma_ids_distinct_is_no_duplicates(s: Seq<PartialDecryption>)
    ensures
        ids_distinct(s) == s.map_values(f_sh_id()).no_duplicates(),
{
    let ids = s.map_values(f_sh_id());
    if ids_distinct(s) {
        assert forall|i: int, j: int| 0 <= i < ids.len() && 0 <= j < ids.len() && i != j implies
            ids[i] != ids[j] by {
            if i < j {
                assert(s[i].spec_id() != s[j].spec_id());
            } else {
                assert(s[j].spec_id() != s[i].spec_id());
            }
        }
    }
    if ids.no_duplicates() {
        assert forall|i: int, j: int| 0 <= i < j < s.len() implies s[i].spec_id()
            != s[j].spec_id() by {
            assert(ids[i] != ids[j]);
        }
    }
}

} // verus!
