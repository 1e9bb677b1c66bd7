//! A threshold variant of the Paillier additively-homomorphic cryptosystem.
//!
//! Key generation produces a public key and a private key over a modulus
//! `n = p * q` built from two safe primes. The private key can be split into
//! shares; any quorum of share holders can decrypt a ciphertext by combining
//! partial decryptions, without ever reassembling the private key.

use vstd::prelude::*;

pub mod arith;
pub mod bignum;
pub mod codec;
pub mod paillier;
pub mod rand;
pub mod util;

use bignum::BigUint;

verus! {

/// The errors surfaced by this library.
#[derive(Clone, Copy, Debug, PartialEq, Eq, Structural)]
pub enum Error {
    /// The external prime source failed.
    PrimeGen,
    /// A required modular inverse does not exist.
    NoInverse,
    /// A caller-detectable contract breach, such as duplicate share ids.
    PreconditionViolated,
}

/// A Paillier ciphertext: an element of `Z_{n^2}` wrapping a big integer.
///
/// Ciphertexts are randomized, so no comparison is offered.
#[derive(Debug, Clone)]
pub struct Ciphertext {
    pub(crate) val: BigUint,
}

/// A Paillier plaintext: a non-negative integer, canonically below `n`
/// after decryption.
#[derive(Debug, Clone, PartialEq, Eq)]
pub struct Plaintext {
    pub(crate) val: BigUint,
}

impl View for Ciphertext {
    type V = nat;

    closed spec fn view(&self) -> nat {
        self.val@
    }
}

impl View for Plaintext {
    type V = nat;

    closed spec fn view(&self) -> nat {
        self.val@
    }
}

impl Ciphertext {
    /// The digit vector of the wrapped integer is in canonical form.
    pub closed spec fn wf(&self) -> bool {
        self.val.wf()
    }

    /// The wrapped integer is small enough for the arithmetic backend:
    /// every operation requires it of its operands, and every operation
    /// and constructor establishes it of its results.
    pub closed spec fn fits(&self) -> bool {
        self.val.spec_digits().len() <= 0x3fff_ffff
    }

    /// A ciphertext is exactly its wrapped integer.
    pub(crate) proof fn lemma_parts(&self)
        ensures
            self@ == self.val@,
            self.wf() == self.val.wf(),
            self.fits() == (self.val.spec_digits().len() <= 0x3fff_ffff),
    {
    }

    /// Wraps a big integer as a ciphertext.
    pub fn from_biguint(val: BigUint) -> (r: Self)
        ensures
            r@ == val@,
            val.wf() ==> r.wf(),
    {
        Ciphertext { val }
    }

    /// The wrapped integer.
    pub fn as_biguint(&self) -> (r: &BigUint)
        ensures
            r@ == self@,
            self.wf() ==> r.wf(),
    {
        &self.val
    }

    /// Wraps a machine integer as a ciphertext.
    pub fn from_u64(v: u64) -> (r: Self)
        ensures
            r@ == v,
            r.wf(),
            r.fits(),
    {
        Ciphertext { val: BigUint::from_u64(v) }
    }

    /// Checks that the wrapped integer is canonical and within the
    /// arithmetic backend's bounds, so that a ciphertext read back from
    /// its byte form can be used by verified callers.
    pub fn check(&self) -> (r: bool)
        ensures
            r == (self.wf() && self.fits()),
    {
        self.val.is_canonical() && self.val.digits().len() <= 0x3fff_ffff
    }

    /// Wraps a truth value as a ciphertext, one for true and zero for
    /// false.
    pub fn from_bool(v: bool) -> (r: Self)
        ensures
            r@ == (if v { 1nat } else { 0nat }),
            r.wf(),
            r.fits(),
    {
        Ciphertext::from_u64(if v { 1 } else { 0 })
    }

    /// Wraps a machine integer as a ciphertext.
    pub fn from_u8(v: u8) -> (r: Self)
        ensures
            r@ == v,
            r.wf(),
            r.fits(),
    {
        Ciphertext::from_u64(v as u64)
    }

    /// Wraps a machine integer as a ciphertext.
    pub fn from_u16(v: u16) -> (r: Self)
        ensures
            r@ == v,
            r.wf(),
            r.fits(),
    {
        Ciphertext::from_u64(v as u64)
    }

    /// Wraps a machine integer as a ciphertext.
    pub fn from_u32(v: u32) -> (r: Self)
        ensures
            r@ == v,
            r.wf(),
            r.fits(),
    {
        Ciphertext::from_u64(v as u64)
    }

    /// Wraps a machine integer as a ciphertext.
    pub fn from_usize(v: usize) -> (r: Self)
        ensures
            r@ == v,
            r.wf(),
            r.fits(),
    {
        Ciphertext::from_u64(v as u64)
    }

    /// Wraps a machine integer as a ciphertext.
    pub fn from_u128(v: u128) -> (r: Self)
        ensures
            r@ == v,
            r.wf(),
            r.fits(),
    {
        Ciphertext { val: BigUint::from_u128(v) }
    }

    /// Wraps a non-negative signed machine integer as a ciphertext;
    /// the scheme's values live in `Z_n`, so negatives have no encoding.
    pub fn from_i8(v: i8) -> (r: Self)
        requires
            v >= 0,
        ensures
            r@ == v,
            r.wf(),
            r.fits(),
    {
        Ciphertext::from_u64(v as u64)
    }

    /// Wraps a non-negative signed machine integer as a ciphertext;
    /// the scheme's values live in `Z_n`, so negatives have no encoding.
    pub fn from_i16(v: i16) -> (r: Self)
        requires
            v >= 0,
        ensures
            r@ == v,
            r.wf(),
            r.fits(),
    {
        Ciphertext::from_u64(v as u64)
    }

    /// Wraps a non-negative signed machine integer as a ciphertext;
    /// the scheme's values live in `Z_n`, so negatives have no encoding.
    pub fn from_i32(v: i32) -> (r: Self)
        requires
            v >= 0,
        ensures
            r@ == v,
            r.wf(),
            r.fits(),
    {
        Ciphertext::from_u64(v as u64)
    }

    /// Wraps a non-negative signed machine integer as a ciphertext;
    /// the scheme's values live in `Z_n`, so negatives have no encoding.
    pub fn from_i64(v: i64) -> (r: Self)
        requires
            v >= 0,
        ensures
            r@ == v,
            r.wf(),
            r.fits(),
    {
        Ciphertext::from_u64(v as u64)
    }

    /// Wraps a non-negative signed machine integer as a ciphertext;
    /// the scheme's values live in `Z_n`, so negatives have no encoding.
    pub fn from_isize(v: isize) -> (r: Self)
        requires
            v >= 0,
        ensures
            r@ == v,
            r.wf(),
            r.fits(),
    {
        Ciphertext::from_u64(v as u64)
    }

    /// Wraps a non-negative signed machine integer as a ciphertext;
    /// the scheme's values live in `Z_n`, so negatives have no encoding.
    pub fn from_i128(v: i128) -> (r: Self)
        requires
            v >= 0,
        ensures
            r@ == v,
            r.wf(),
            r.fits(),
    {
        Ciphertext { val: BigUint::from_u128(v as u128) }
    }
}

impl Plaintext {
    /// The digit vector of the wrapped integer is in canonical form.
    pub closed spec fn wf(&self) -> bool {
        self.val.wf()
    }

    /// The wrapped integer is small enough for the arithmetic backend:
    /// every operation requires it of its operands, and every operation
    /// and constructor establishes it of its results.
    pub closed spec fn fits(&self) -> bool {
        self.val.spec_digits().len() <= 0x3fff_ffff
    }

    /// A plaintext is exactly its wrapped integer.
    pub(crate) proof fn lemma_parts(&self)
        ensures
            self@ == self.val@,
            self.wf() == self.val.wf(),
            self.fits() == (self.val.spec_digits().len() <= 0x3fff_ffff),
    {
    }

    /// Wraps a big integer as a plaintext.
    pub fn from_biguint(val: BigUint) -> (r: Self)
        ensures
            r@ == val@,
            val.wf() ==> r.wf(),
    {
        Plaintext { val }
    }

    /// The wrapped integer.
    pub fn as_biguint(&self) -> (r: &BigUint)
        ensures
            r@ == self@,
            self.wf() ==> r.wf(),
    {
        &self.val
    }

    /// Wraps a machine integer as a plaintext.
    pub fn from_u64(v: u64) -> (r: Self)
        ensures
            r@ == v,
            r.wf(),
            r.fits(),
    {
        Plaintext { val: BigUint::from_u64(v) }
    }

    /// Compares the plaintext's value with a machine integer.
    pub fn eq_u64(&self, v: u64) -> (r: bool)
        requires
            self.wf(),
        ensures
            r == (self@ == v),
    {
        let other = BigUint::from_u64(v);
        bignum::big_eq(&self.val, &other)
    }

    /// Orders the plaintext's value against a machine integer.
    pub fn lt_u64(&self, v: u64) -> (r: bool)
        requires
            self.fits(),
        ensures
            r == (self@ < v),
    {
        let other = BigUint::from_u64(v);
        bignum::big_lt(&self.val, &other)
    }

    /// Orders the plaintext's value against another plaintext's.
    pub fn lt(&self, other: &Plaintext) -> (r: bool)
        requires
            self.fits(),
            other.fits(),
        ensures
            r == (self@ < other@),
    {
        bignum::big_lt(&self.val, &other.val)
    }

    /// Checks that the wrapped integer is canonical and within the
    /// arithmetic backend's bounds, so that a plaintext read back from
    /// its byte form can be used by verified callers.
    pub fn check(&self) -> (r: bool)
        ensures
            r == (self.wf() && self.fits()),
    {
        self.val.is_canonical() && self.val.digits().len() <= 0x3fff_ffff
    }

    /// Wraps a truth value as a plaintext, one for true and zero for
    /// false.
    pub fn from_bool(v: bool) -> (r: Self)
        ensures
            r@ == (if v { 1nat } else { 0nat }),
            r.wf(),
            r.fits(),
    {
        Plaintext::from_u64(if v { 1 } else { 0 })
    }

    /// Wraps a machine integer as a plaintext.
    pub fn from_u8(v: u8) -> (r: Self)
        ensures
            r@ == v,
            r.wf(),
            r.fits(),
    {
        Plaintext::from_u64(v as u64)
    }

    /// Wraps a machine integer as a plaintext.
    pub fn from_u16(v: u16) -> (r: Self)
        ensures
            r@ == v,
            r.wf(),
            r.fits(),
    {
        Plaintext::from_u64(v as u64)
    }

    /// Wraps a machine integer as a plaintext.
    pub fn from_u32(v: u32) -> (r: Self)
        ensures
            r@ == v,
            r.wf(),
            r.fits(),
    {
        Plaintext::from_u64(v as u64)
    }

    /// Wraps a machine integer as a plaintext.
    pub fn from_usize(v: usize) -> (r: Self)
        ensures
            r@ == v,
            r.wf(),
            r.fits(),
    {
        Plaintext::from_u64(v as u64)
    }

    /// Wraps a machine integer as a plaintext.
    pub fn from_u128(v: u128) -> (r: Self)
        ensures
            r@ == v,
            r.wf(),
            r.fits(),
    {
        Plaintext { val: BigUint::from_u128(v) }
    }

    /// Wraps a non-negative signed machine integer as a plaintext;
    /// the scheme's values live in `Z_n`, so negatives have no encoding.
    pub fn from_i8(v: i8) -> (r: Self)
        requires
            v >= 0,
        ensures
            r@ == v,
            r.wf(),
            r.fits(),
    {
        Plaintext::from_u64(v as u64)
    }

    /// Wraps a non-negative signed machine integer as a plaintext;
    /// the scheme's values live in `Z_n`, so negatives have no encoding.
    pub fn from_i16(v: i16) -> (r: Self)
        requires
            v >= 0,
        ensures
            r@ == v,
            r.wf(),
            r.fits(),
    {
        Plaintext::from_u64(v as u64)
    }

    /// Wraps a non-negative signed machine integer as a plaintext;
    /// the scheme's values live in `Z_n`, so negatives have no encoding.
    pub fn from_i32(v: i32) -> (r: Self)
        requires
            v >= 0,
        ensures
            r@ == v,
            r.wf(),
            r.fits(),
    {
        Plaintext::from_u64(v as u64)
    }

    /// Wraps a non-negative signed machine integer as a plaintext;
    /// the scheme's values live in `Z_n`, so negatives have no encoding.
    pub fn from_i64(v: i64) -> (r: Self)
        requires
            v >= 0,
        ensures
            r@ == v,
            r.wf(),
            r.fits(),
    {
        Plaintext::from_u64(v as u64)
    }

    /// Wraps a non-negative signed machine integer as a plaintext;
    /// the scheme's values live in `Z_n`, so negatives have no encoding.
    pub fn from_isize(v: isize) -> (r: Self)
        requires
            v >= 0,
        ensures
            r@ == v,
            r.wf(),
            r.fits(),
    {
        Plaintext::from_u64(v as u64)
    }

    /// Wraps a non-negative signed machine integer as a plaintext;
    /// the scheme's values live in `Z_n`, so negatives have no encoding.
    pub fn from_i128(v: i128) -> (r: Self)
        requires
            v >= 0,
        ensures
            r@ == v,
            r.wf(),
            r.fits(),
    {
        Plaintext { val: BigUint::from_u128(v as u128) }
    }
}

} // verus!
