//! The stable byte layout for keys, shares, and values.
//!
//! Big integers travel as an eight-byte little-endian length prefix
//! followed by their base-256 digits, least significant byte first.
//! Machine integers travel as four little-endian bytes. A structure is the
//! concatenation of its fields' encodings, and deserialization accepts
//! exactly the strings that serialization produces.

use vstd::prelude::*;
use vstd::bytes::{
    spec_u32_from_le_bytes, spec_u32_to_le_bytes, spec_u64_from_le_bytes, spec_u64_to_le_bytes,
    u32_from_le_bytes, u32_to_le_bytes, u64_from_le_bytes, u64_to_le_bytes,
};
use vstd::slice::{slice_subrange, slice_to_vec};
use crate::bignum::{nat_of_digits, BigUint};
use crate::paillier::{PartialDecryption, PrivateKey, PrivateKeyShare, PublicKey};
use crate::{Ciphertext, Plaintext};

verus! {

/// The encoding of a four-byte machine integer.
pub open spec fn ser_u32v(v: u32) -> Seq<u8> {
    spec_u32_to_le_bytes(v)
}

/// The encoding of a digit vector: its length, then its bytes.
pub open spec fn ser_digits(d: Seq<u8>) -> Seq<u8> {
    spec_u64_to_le_bytes(d.len() as u64) + d
}

/// Reads a four-byte machine integer off the front of a string.
pub open spec fn parse_u32v(s: Seq<u8>) -> Option<(u32, Seq<u8>)> {
    if s.len() >= 4 {
        Some((spec_u32_from_le_bytes(s.take(4)), s.skip(4)))
    } else {
        None
    }
}

/// Reads a length-prefixed digit vector off the front of a string.
pub open spec fn parse_digits(s: Seq<u8>) -> Option<(Seq<u8>, Seq<u8>)> {
    if s.len() >= 8 {
        let len = spec_u64_from_le_bytes(s.take(8)) as int;
        if s.len() - 8 >= len {
            Some((s.skip(8).take(len), s.skip(8).skip(len)))
        } else {
            None
        }
    } else {
        None
    }
}

/// Parsing undoes serializing a machine integer, leaving the rest.
pub proof fn lemma_parse_ser_u32(v: u32, rest: Seq<u8>)
    ensures
        parse_u32v(ser_u32v(v) + rest) == Some((v, rest)),
{
    vstd::bytes::lemma_auto_spec_u32_to_from_le_bytes();
    let s = ser_u32v(v) + rest;
    assert(s.take(4) =~= ser_u32v(v));
    assert(s.skip(4) =~= rest);
}

/// Parsing undoes serializing a digit vector, leaving the rest.
pub proof fn lemma_parse_ser_digits(d: Seq<u8>, rest: Seq<u8>)
    requires
        d.len() <= 0xffff_ffff_ffff_ffff,
    ensures
        parse_digits(ser_digits(d) + rest) == Some((d, rest)),
{
    vstd::bytes::lemma_auto_spec_u64_to_from_le_bytes();
    let s = ser_digits(d) + rest;
    assert(s.take(8) =~= spec_u64_to_le_bytes(d.len() as u64));
    assert(s.len() - 8 == d.len() + rest.len());
    assert(s.skip(8).take(d.len() as int) =~= d);
    assert(s.skip(8).skip(d.len() as int) =~= rest);
}

/// Appends the encoding of a machine integer.
fn write_u32(out: &mut Vec<u8>, v: u32)
    ensures
        final(out)@ == old(out)@ + ser_u32v(v),
{
    let mut b = u32_to_le_bytes(v);
    out.append(&mut b);
}

/// Appends the encoding of a big integer's digits.
fn write_big(out: &mut Vec<u8>, b: &BigUint)
    ensures
        final(out)@ == old(out)@ + ser_digits(b.spec_digits()),
{
    let ghost first = out@;
    let d = b.digits();
    let mut lenb = u64_to_le_bytes(d.len() as u64);
    out.append(&mut lenb);
    let mut digits = b.to_digits_vec();
    out.append(&mut digits);
    proof {
        assert(out@ =~= first + ser_digits(b.spec_digits()));
    }
}

/// Reads a machine integer at the offset; the parse of the tail from
/// `off` succeeds exactly when this does.
fn read_u32(s: &[u8], off: usize) -> (r: Option<(u32, usize)>)
    requires
        off <= s@.len(),
    ensures
        match r {
            Some(p) => {
                &&& off < p.1 <= s@.len()
                &&& parse_u32v(s@.skip(off as int)) == Some((p.0, s@.skip(p.1 as int)))
            },
            None => parse_u32v(s@.skip(off as int)) is None,
        },
{
    if s.len() - off >= 4 {
        let sub = slice_subrange(s, off, off + 4);
        let v = u32_from_le_bytes(sub);
        proof {
            assert(s@.skip(off as int).take(4) =~= sub@);
            assert(s@.skip(off as int).skip(4) =~= s@.skip(off + 4));
        }
        Some((v, off + 4))
    } else {
        None
    }
}

/// Reads a length-prefixed big integer at the offset; the parse of the
/// tail from `off` succeeds exactly when this does.
fn read_big(s: &[u8], off: usize) -> (r: Option<(BigUint, usize)>)
    requires
        off <= s@.len(),
    ensures
        match r {
            Some(p) => {
                &&& off < p.1 <= s@.len()
                &&& parse_digits(s@.skip(off as int)) == Some(
                    (p.0.spec_digits(), s@.skip(p.1 as int)),
                )
                &&& p.0@ == nat_of_digits(p.0.spec_digits())
            },
            None => parse_digits(s@.skip(off as int)) is None,
        },
{
    if s.len() - off >= 8 {
        let sub = slice_subrange(s, off, off + 8);
        let len64 = u64_from_le_bytes(sub);
        proof {
            assert(s@.skip(off as int).take(8) =~= sub@);
        }
        if len64 <= (s.len() - off - 8) as u64 {
            let len = len64 as usize;
            let dsub = slice_subrange(s, off + 8, off + 8 + len);
            let digits = slice_to_vec(dsub);
            let b = BigUint::from_digits(digits);
            proof {
                assert(s@.skip(off as int).skip(8).take(len as int) =~= dsub@);
                assert(s@.skip(off as int).skip(8).skip(len as int) =~= s@.skip(
                    (off + 8 + len) as int,
                ));
            }
            Some((b, off + 8 + len))
        } else {
            None
        }
    } else {
        None
    }
}

/// The encoding of a plaintext: its integer's digits.
pub closed spec fn spec_ser_plaintext(p: Plaintext) -> Seq<u8> {
    ser_digits(p.val.spec_digits())
}

/// The digits a plaintext or ciphertext encoding carries, when it is
/// well formed and complete.
pub open spec fn spec_parse_value(s: Seq<u8>) -> Option<Seq<u8>> {
    match parse_digits(s) {
        Some(p) => if p.1.len() == 0 {
            Some(p.0)
        } else {
            None
        },
        None => None,
    }
}

/// The digit form of a plaintext, which determines its value.
pub closed spec fn spec_repr_plaintext(p: Plaintext) -> Seq<u8> {
    p.val.spec_digits()
}

/// Serialization round trip for plaintexts: parsing an encoding yields
/// the encoded digits, and with them the value.
pub proof fn lemma_plaintext_round_trip(p: Plaintext)
    ensures
        spec_parse_value(spec_ser_plaintext(p)) == Some(spec_repr_plaintext(p)),
        nat_of_digits(spec_repr_plaintext(p)) == p@,
{
    p.val.lemma_digits_len_bound();
    lemma_parse_ser_digits(p.val.spec_digits(), Seq::empty());
    assert(spec_ser_plaintext(p) =~= ser_digits(p.val.spec_digits()) + Seq::<u8>::empty());
    p.lemma_parts();
    p.val.lemma_view_is_digits();
}

/// Encodes a plaintext.
pub fn serialize_plaintext(p: &Plaintext) -> (out: Vec<u8>)
    ensures
        out@ == spec_ser_plaintext(*p),
{
    let mut out: Vec<u8> = Vec::new();
    write_big(&mut out, &p.val);
    proof {
        assert(out@ =~= spec_ser_plaintext(*p));
    }
    out
}

/// Decodes a plaintext; accepts exactly complete well-formed encodings.
pub fn deserialize_plaintext(bytes: &[u8]) -> (r: Option<Plaintext>)
    ensures
        r is Some <==> spec_parse_value(bytes@) is Some,
        r matches Some(p) ==> spec_parse_value(bytes@) == Some(spec_repr_plaintext(p)) && p@
            == nat_of_digits(spec_repr_plaintext(p)),
{
    proof {
        assert(bytes@.skip(0) =~= bytes@);
    }
    match read_big(bytes, 0) {
        Some((b, off)) => {
            if off == bytes.len() {
                let r = Plaintext { val: b };
                proof {
                    assert(bytes@.skip(off as int).len() == 0);
                    r.lemma_parts();
                    r.val.lemma_view_is_digits();
                }
                Some(r)
            } else {
                proof {
                    assert(bytes@.skip(off as int).len() > 0);
                }
                None
            }
        }
        None => None,
    }
}

/// The encoding of a ciphertext: its integer's digits.
pub closed spec fn spec_ser_ciphertext(c: Ciphertext) -> Seq<u8> {
    ser_digits(c.val.spec_digits())
}

/// The digit form of a ciphertext, which determines its value.
pub closed spec fn spec_repr_ciphertext(c: Ciphertext) -> Seq<u8> {
    c.val.spec_digits()
}

/// Serialization round trip for ciphertexts.
pub proof fn lemma_ciphertext_round_trip(c: Ciphertext)
    ensures
        spec_parse_value(spec_ser_ciphertext(c)) == Some(spec_repr_ciphertext(c)),
        nat_of_digits(spec_repr_ciphertext(c)) == c@,
{
    c.val.lemma_digits_len_bound();
    lemma_parse_ser_digits(c.val.spec_digits(), Seq::empty());
    assert(spec_ser_ciphertext(c) =~= ser_digits(c.val.spec_digits()) + Seq::<u8>::empty());
    c.lemma_parts();
    c.val.lemma_view_is_digits();
}

/// Encodes a ciphertext.
pub fn serialize_ciphertext(c: &Ciphertext) -> (out: Vec<u8>)
    ensures
        out@ == spec_ser_ciphertext(*c),
{
    let mut out: Vec<u8> = Vec::new();
    write_big(&mut out, &c.val);
    proof {
        assert(out@ =~= spec_ser_ciphertext(*c));
    }
    out
}

/// Decodes a ciphertext; accepts exactly complete well-formed encodings.
pub fn deserialize_ciphertext(bytes: &[u8]) -> (r: Option<Ciphertext>)
    ensures
        r is Some <==> spec_parse_value(bytes@) is Some,
        r matches Some(c) ==> spec_parse_value(bytes@) == Some(spec_repr_ciphertext(c)) && c@
            == nat_of_digits(spec_repr_ciphertext(c)),
{
    proof {
        assert(bytes@.skip(0) =~= bytes@);
    }
    match read_big(bytes, 0) {
        Some((b, off)) => {
            if off == bytes.len() {
                let r = Ciphertext { val: b };
                proof {
                    assert(bytes@.skip(off as int).len() == 0);
                    r.lemma_parts();
                    r.val.lemma_view_is_digits();
                }
                Some(r)
            } else {
                proof {
                    assert(bytes@.skip(off as int).len() > 0);
                }
                None
            }
        }
        None => None,
    }
}


/// The encoding of a private key share: its fields' encodings, in order.
pub closed spec fn spec_ser_private_key_share(x: PrivateKeyShare) -> Seq<u8> {
    ser_u32v(x.i) + ser_digits(x.si.spec_digits())
}

/// The field values of a private key share, as plain data.
pub closed spec fn spec_repr_private_key_share(x: PrivateKeyShare) -> (u32, Seq<u8>) {
    (x.i, x.si.spec_digits())
}


/// The field values an encoding of a private key share carries, when it is well
/// formed and complete.
pub open spec fn spec_parse_private_key_share(s: Seq<u8>) -> Option<(u32, Seq<u8>)> {
    match parse_u32v(s) {
        Some(p0) => {
            let v0 = p0.0;
            let s1 = p0.1;
            match parse_digits(s1) {
                Some(p1) => {
                    let v1 = p1.0;
                    let s2 = p1.1;
                    if s2.len() == 0 {
                        Some((v0, v1))
                    } else {
                        None
                    }
                },
                None => None,
            }
        },
        None => None,
    }
}


/// Serialization round trip for private key shares: parsing an
/// encoding yields exactly the encoded field values.
pub proof fn lemma_private_key_share_round_trip(x: PrivateKeyShare)
    ensures
        spec_parse_private_key_share(spec_ser_private_key_share(x)) == Some(spec_repr_private_key_share(x)),
{
    x.si.lemma_digits_len_bound();
    let r0 = ser_digits(x.si.spec_digits());
    let r1 = Seq::<u8>::empty();
    let s0 = spec_ser_private_key_share(x);
    assert(s0 =~= ser_u32v(x.i) + r0);
    lemma_parse_ser_u32(x.i, r0);
    let s1 = r0;
    assert(s1 =~= ser_digits(x.si.spec_digits()) + r1);
    lemma_parse_ser_digits(x.si.spec_digits(), r1);
}


/// Encodes a private key share.
pub fn serialize_private_key_share(x: &PrivateKeyShare) -> (out: Vec<u8>)
    ensures
        out@ == spec_ser_private_key_share(*x),
{
    let mut out: Vec<u8> = Vec::new();
    write_u32(&mut out, x.i);
    write_big(&mut out, &x.si);
    proof {
        assert(out@ =~= spec_ser_private_key_share(*x));
    }
    out
}


/// Decodes a private key share; accepts exactly complete well-formed encodings.
pub fn deserialize_private_key_share(bytes: &[u8]) -> (r: Option<PrivateKeyShare>)
    ensures
        r is Some <==> spec_parse_private_key_share(bytes@) is Some,
        r matches Some(x) ==> spec_parse_private_key_share(bytes@) == Some(spec_repr_private_key_share(x)),
{
    proof {
        assert(bytes@.skip(0) =~= bytes@);
    }
    let off0: usize = 0;
    let (f0, off1) = match read_u32(bytes, off0) {
        Some(p) => p,
        None => {
            return None;
        },
    };
    let (f1, off2) = match read_big(bytes, off1) {
        Some(p) => p,
        None => {
            return None;
        },
    };
    if off2 != bytes.len() {
        proof {
            assert(bytes@.skip(off2 as int).len() > 0);
        }
        return None;
    }
    let r = PrivateKeyShare { i: f0, si: f1 };
    proof {
        assert(bytes@.skip(off2 as int).len() == 0);
    }
    Some(r)
}


/// The encoding of a partial decryption: its fields' encodings, in order.
pub closed spec fn spec_ser_partial_decryption(x: PartialDecryption) -> Seq<u8> {
    ser_digits(x.val.spec_digits()) + ser_u32v(x.id)
}

/// The field values of a partial decryption, as plain data.
pub closed spec fn spec_repr_partial_decryption(x: PartialDecryption) -> (Seq<u8>, u32) {
    (x.val.spec_digits(), x.id)
}


/// The field values an encoding of a partial decryption carries, when it is well
/// formed and complete.
pub open spec fn spec_parse_partial_decryption(s: Seq<u8>) -> Option<(Seq<u8>, u32)> {
    match parse_digits(s) {
        Some(p0) => {
            let v0 = p0.0;
            let s1 = p0.1;
            match parse_u32v(s1) {
                Some(p1) => {
                    let v1 = p1.0;
                    let s2 = p1.1;
                    if s2.len() == 0 {
                        Some((v0, v1))
                    } else {
                        None
                    }
                },
                None => None,
            }
        },
        None => None,
    }
}


/// Serialization round trip for partial decryptions: parsing an
/// encoding yields exactly the encoded field values.
pub proof fn lemma_partial_decryption_round_trip(x: PartialDecryption)
    ensures
        spec_parse_partial_decryption(spec_ser_partial_decryption(x)) == Some(spec_repr_partial_decryption(x)),
{
    x.val.lemma_digits_len_bound();
    let r0 = ser_u32v(x.id);
    let r1 = Seq::<u8>::empty();
    let s0 = spec_ser_partial_decryption(x);
    assert(s0 =~= ser_digits(x.val.spec_digits()) + r0);
    lemma_parse_ser_digits(x.val.spec_digits(), r0);
    let s1 = r0;
    assert(s1 =~= ser_u32v(x.id) + r1);
    lemma_parse_ser_u32(x.id, r1);
}


/// Encodes a partial decryption.
pub fn serialize_partial_decryption(x: &PartialDecryption) -> (out: Vec<u8>)
    ensures
        out@ == spec_ser_partial_decryption(*x),
{
    let mut out: Vec<u8> = Vec::new();
    write_big(&mut out, &x.val);
    write_u32(&mut out, x.id);
    proof {
        assert(out@ =~= spec_ser_partial_decryption(*x));
    }
    out
}


/// Decodes a partial decryption; accepts exactly complete well-formed encodings.
pub fn deserialize_partial_decryption(bytes: &[u8]) -> (r: Option<PartialDecryption>)
    ensures
        r is Some <==> spec_parse_partial_decryption(bytes@) is Some,
        r matches Some(x) ==> spec_parse_partial_decryption(bytes@) == Some(spec_repr_partial_decryption(x)),
{
    proof {
        assert(bytes@.skip(0) =~= bytes@);
    }
    let off0: usize = 0;
    let (f0, off1) = match read_big(bytes, off0) {
        Some(p) => p,
        None => {
            return None;
        },
    };
    let (f1, off2) = match read_u32(bytes, off1) {
        Some(p) => p,
        None => {
            return None;
        },
    };
    if off2 != bytes.len() {
        proof {
            assert(bytes@.skip(off2 as int).len() > 0);
        }
        return None;
    }
    let r = PartialDecryption { val: f0, id: f1 };
    proof {
        assert(bytes@.skip(off2 as int).len() == 0);
    }
    Some(r)
}


/// The encoding of a public key: its fields' encodings, in order.
pub closed spec fn spec_ser_public_key(x: PublicKey) -> Seq<u8> {
    ser_u32v(x.w) + ser_u32v(x.l) + ser_digits(x.n.spec_digits()) + ser_digits(x.g.spec_digits()) + ser_digits(x.n2.spec_digits()) + ser_digits(x.delta.spec_digits()) + ser_digits(x.combine_shares_constant.spec_digits())
}

/// The field values of a public key, as plain data.
pub closed spec fn spec_repr_public_key(x: PublicKey) -> (u32, u32, Seq<u8>, Seq<u8>, Seq<u8>, Seq<u8>, Seq<u8>) {
    (x.w, x.l, x.n.spec_digits(), x.g.spec_digits(), x.n2.spec_digits(), x.delta.spec_digits(), x.combine_shares_constant.spec_digits())
}


/// The field values an encoding of a public key carries, when it is well
/// formed and complete.
pub open spec fn spec_parse_public_key(s: Seq<u8>) -> Option<(u32, u32, Seq<u8>, Seq<u8>, Seq<u8>, Seq<u8>, Seq<u8>)> {
    match parse_u32v(s) {
        Some(p0) => {
            let v0 = p0.0;
            let s1 = p0.1;
            match parse_u32v(s1) {
                Some(p1) => {
                    let v1 = p1.0;
                    let s2 = p1.1;
                    match parse_digits(s2) {
                        Some(p2) => {
                            let v2 = p2.0;
                            let s3 = p2.1;
                            match parse_digits(s3) {
                                Some(p3) => {
                                    let v3 = p3.0;
                                    let s4 = p3.1;
                                    match parse_digits(s4) {
                                        Some(p4) => {
                                            let v4 = p4.0;
                                            let s5 = p4.1;
                                            match parse_digits(s5) {
                                                Some(p5) => {
                                                    let v5 = p5.0;
                                                    let s6 = p5.1;
                                                    match parse_digits(s6) {
                                                        Some(p6) => {
                                                            let v6 = p6.0;
                                                            let s7 = p6.1;
                                                            if s7.len() == 0 {
                                                                Some((v0, v1, v2, v3, v4, v5, v6))
                                                            } else {
                                                                None
                                                            }
                                                        },
                                                        None => None,
                                                    }
                                                },
                                                None => None,
                                            }
                                        },
                                        None => None,
                                    }
                                },
                                None => None,
                            }
                        },
                        None => None,
                    }
                },
                None => None,
            }
        },
        None => None,
    }
}


/// Serialization round trip for public keys: parsing an
/// encoding yields exactly the encoded field values.
pub proof fn lemma_public_key_round_trip(x: PublicKey)
    ensures
        spec_parse_public_key(spec_ser_public_key(x)) == Some(spec_repr_public_key(x)),
{
    x.n.lemma_digits_len_bound();
    x.g.lemma_digits_len_bound();
    x.n2.lemma_digits_len_bound();
    x.delta.lemma_digits_len_bound();
    x.combine_shares_constant.lemma_digits_len_bound();
    let r0 = ser_u32v(x.l) + ser_digits(x.n.spec_digits()) + ser_digits(x.g.spec_digits()) + ser_digits(x.n2.spec_digits()) + ser_digits(x.delta.spec_digits()) + ser_digits(x.combine_shares_constant.spec_digits());
    let r1 = ser_digits(x.n.spec_digits()) + ser_digits(x.g.spec_digits()) + ser_digits(x.n2.spec_digits()) + ser_digits(x.delta.spec_digits()) + ser_digits(x.combine_shares_constant.spec_digits());
    let r2 = ser_digits(x.g.spec_digits()) + ser_digits(x.n2.spec_digits()) + ser_digits(x.delta.spec_digits()) + ser_digits(x.combine_shares_constant.spec_digits());
    let r3 = ser_digits(x.n2.spec_digits()) + ser_digits(x.delta.spec_digits()) + ser_digits(x.combine_shares_constant.spec_digits());
    let r4 = ser_digits(x.delta.spec_digits()) + ser_digits(x.combine_shares_constant.spec_digits());
    let r5 = ser_digits(x.combine_shares_constant.spec_digits());
    let r6 = Seq::<u8>::empty();
    let s0 = spec_ser_public_key(x);
    assert(s0 =~= ser_u32v(x.w) + r0);
    lemma_parse_ser_u32(x.w, r0);
    let s1 = r0;
    assert(s1 =~= ser_u32v(x.l) + r1);
    lemma_parse_ser_u32(x.l, r1);
    let s2 = r1;
    assert(s2 =~= ser_digits(x.n.spec_digits()) + r2);
    lemma_parse_ser_digits(x.n.spec_digits(), r2);
    let s3 = r2;
    assert(s3 =~= ser_digits(x.g.spec_digits()) + r3);
    lemma_parse_ser_digits(x.g.spec_digits(), r3);
    let s4 = r3;
    assert(s4 =~= ser_digits(x.n2.spec_digits()) + r4);
    lemma_parse_ser_digits(x.n2.spec_digits(), r4);
    let s5 = r4;
    assert(s5 =~= ser_digits(x.delta.spec_digits()) + r5);
    lemma_parse_ser_digits(x.delta.spec_digits(), r5);
    let s6 = r5;
    assert(s6 =~= ser_digits(x.combine_shares_constant.spec_digits()) + r6);
    lemma_parse_ser_digits(x.combine_shares_constant.spec_digits(), r6);
}


/// Encodes a public key.
pub fn serialize_public_key(x: &PublicKey) -> (out: Vec<u8>)
    ensures
        out@ == spec_ser_public_key(*x),
{
    let mut out: Vec<u8> = Vec::new();
    write_u32(&mut out, x.w);
    write_u32(&mut out, x.l);
    write_big(&mut out, &x.n);
    write_big(&mut out, &x.g);
    write_big(&mut out, &x.n2);
    write_big(&mut out, &x.delta);
    write_big(&mut out, &x.combine_shares_constant);
    proof {
        assert(out@ =~= spec_ser_public_key(*x));
    }
    out
}


/// Decodes a public key; accepts exactly complete well-formed encodings.
pub fn deserialize_public_key(bytes: &[u8]) -> (r: Option<PublicKey>)
    ensures
        r is Some <==> spec_parse_public_key(bytes@) is Some,
        r matches Some(x) ==> spec_parse_public_key(bytes@) == Some(spec_repr_public_key(x)),
{
    proof {
        assert(bytes@.skip(0) =~= bytes@);
    }
    let off0: usize = 0;
    let (f0, off1) = match read_u32(bytes, off0) {
        Some(p) => p,
        None => {
            return None;
        },
    };
    let (f1, off2) = match read_u32(bytes, off1) {
        Some(p) => p,
        None => {
            return None;
        },
    };
    let (f2, off3) = match read_big(bytes, off2) {
        Some(p) => p,
        None => {
            return None;
        },
    };
    let (f3, off4) = match read_big(bytes, off3) {
        Some(p) => p,
        None => {
            return None;
        },
    };
    let (f4, off5) = match read_big(bytes, off4) {
        Some(p) => p,
        None => {
            return None;
        },
    };
    let (f5, off6) = match read_big(bytes, off5) {
        Some(p) => p,
        None => {
            return None;
        },
    };
    let (f6, off7) = match read_big(bytes, off6) {
        Some(p) => p,
        None => {
            return None;
        },
    };
    if off7 != bytes.len() {
        proof {
            assert(bytes@.skip(off7 as int).len() > 0);
        }
        return None;
    }
    let r = PublicKey { w: f0, l: f1, n: f2, g: f3, n2: f4, delta: f5, combine_shares_constant: f6 };
    proof {
        assert(bytes@.skip(off7 as int).len() == 0);
    }
    Some(r)
}


/// The encoding of a private key: its fields' encodings, in order.
pub closed spec fn spec_ser_private_key(x: PrivateKey) -> Seq<u8> {
    ser_u32v(x.w) + ser_u32v(x.l) + ser_digits(x.d.spec_digits()) + ser_digits(x.n.spec_digits()) + ser_digits(x.n2.spec_digits()) + ser_digits(x.nm.spec_digits())
}

/// The field values of a private key, as plain data.
pub closed spec fn spec_repr_private_key(x: PrivateKey) -> (u32, u32, Seq<u8>, Seq<u8>, Seq<u8>, Seq<u8>) {
    (x.w, x.l, x.d.spec_digits(), x.n.spec_digits(), x.n2.spec_digits(), x.nm.spec_digits())
}


/// The field values an encoding of a private key carries, when it is well
/// formed and complete.
pub open spec fn spec_parse_private_key(s: Seq<u8>) -> Option<(u32, u32, Seq<u8>, Seq<u8>, Seq<u8>, Seq<u8>)> {
    match parse_u32v(s) {
        Some(p0) => {
            let v0 = p0.0;
            let s1 = p0.1;
            match parse_u32v(s1) {
                Some(p1) => {
                    let v1 = p1.0;
                    let s2 = p1.1;
                    match parse_digits(s2) {
                        Some(p2) => {
                            let v2 = p2.0;
                            let s3 = p2.1;
                            match parse_digits(s3) {
                                Some(p3) => {
                                    let v3 = p3.0;
                                    let s4 = p3.1;
                                    match parse_digits(s4) {
                                        Some(p4) => {
                                            let v4 = p4.0;
                                            let s5 = p4.1;
                                            match parse_digits(s5) {
                                                Some(p5) => {
                                                    let v5 = p5.0;
                                                    let s6 = p5.1;
                                                    if s6.len() == 0 {
                                                        Some((v0, v1, v2, v3, v4, v5))
                                                    } else {
                                                        None
                                                    }
                                                },
                                                None => None,
                                            }
                                        },
                                        None => None,
                                    }
                                },
                                None => None,
                            }
                        },
                        None => None,
                    }
                },
                None => None,
            }
        },
        None => None,
    }
}


/// Serialization round trip for private keys: parsing an
/// encoding yields exactly the encoded field values.
pub proof fn lemma_private_key_round_trip(x: PrivateKey)
    ensures
        spec_parse_private_key(spec_ser_private_key(x)) == Some(spec_repr_private_key(x)),
{
    x.d.lemma_digits_len_bound();
    x.n.lemma_digits_len_bound();
    x.n2.lemma_digits_len_bound();
    x.nm.lemma_digits_len_bound();
    let r0 = ser_u32v(x.l) + ser_digits(x.d.spec_digits()) + ser_digits(x.n.spec_digits()) + ser_digits(x.n2.spec_digits()) + ser_digits(x.nm.spec_digits());
    let r1 = ser_digits(x.d.spec_digits()) + ser_digits(x.n.spec_digits()) + ser_digits(x.n2.spec_digits()) + ser_digits(x.nm.spec_digits());
    let r2 = ser_digits(x.n.spec_digits()) + ser_digits(x.n2.spec_digits()) + ser_digits(x.nm.spec_digits());
    let r3 = ser_digits(x.n2.spec_digits()) + ser_digits(x.nm.spec_digits());
    let r4 = ser_digits(x.nm.spec_digits());
    let r5 = Seq::<u8>::empty();
    let s0 = spec_ser_private_key(x);
    assert(s0 =~= ser_u32v(x.w) + r0);
    lemma_parse_ser_u32(x.w, r0);
    let s1 = r0;
    assert(s1 =~= ser_u32v(x.l) + r1);
    lemma_parse_ser_u32(x.l, r1);
    let s2 = r1;
    assert(s2 =~= ser_digits(x.d.spec_digits()) + r2);
    lemma_parse_ser_digits(x.d.spec_digits(), r2);
    let s3 = r2;
    assert(s3 =~= ser_digits(x.n.spec_digits()) + r3);
    lemma_parse_ser_digits(x.n.spec_digits(), r3);
    let s4 = r3;
    assert(s4 =~= ser_digits(x.n2.spec_digits()) + r4);
    lemma_parse_ser_digits(x.n2.spec_digits(), r4);
    let s5 = r4;
    assert(s5 =~= ser_digits(x.nm.spec_digits()) + r5);
    lemma_parse_ser_digits(x.nm.spec_digits(), r5);
}


/// Encodes a private key.
pub fn serialize_private_key(x: &PrivateKey) -> (out: Vec<u8>)
    ensures
        out@ == spec_ser_private_key(*x),
{
    let mut out: Vec<u8> = Vec::new();
    write_u32(&mut out, x.w);
    write_u32(&mut out, x.l);
    write_big(&mut out, &x.d);
    write_big(&mut out, &x.n);
    write_big(&mut out, &x.n2);
    write_big(&mut out, &x.nm);
    proof {
        assert(out@ =~= spec_ser_private_key(*x));
    }
    out
}


/// Decodes a private key; accepts exactly complete well-formed encodings.
pub fn deserialize_private_key(bytes: &[u8]) -> (r: Option<PrivateKey>)
    ensures
        r is Some <==> spec_parse_private_key(bytes@) is Some,
        r matches Some(x) ==> spec_parse_private_key(bytes@) == Some(spec_repr_private_key(x)),
{
    proof {
        assert(bytes@.skip(0) =~= bytes@);
    }
    let off0: usize = 0;
    let (f0, off1) = match read_u32(bytes, off0) {
        Some(p) => p,
        None => {
            return None;
        },
    };
    let (f1, off2) = match read_u32(bytes, off1) {
        Some(p) => p,
        None => {
            return None;
        },
    };
    let (f2, off3) = match read_big(bytes, off2) {
        Some(p) => p,
        None => {
            return None;
        },
    };
    let (f3, off4) = match read_big(bytes, off3) {
        Some(p) => p,
        None => {
            return None;
        },
    };
    let (f4, off5) = match read_big(bytes, off4) {
        Some(p) => p,
        None => {
            return None;
        },
    };
    let (f5, off6) = match read_big(bytes, off5) {
        Some(p) => p,
        None => {
            return None;
        },
    };
    if off6 != bytes.len() {
        proof {
            assert(bytes@.skip(off6 as int).len() > 0);
        }
        return None;
    }
    let r = PrivateKey { w: f0, l: f1, d: f2, n: f3, n2: f4, nm: f5 };
    proof {
        assert(bytes@.skip(off6 as int).len() == 0);
    }
    Some(r)
}


/// Equal encodable forms mean equal plaintexts: the same value and the
/// same canonical form.
pub proof fn lemma_plaintext_repr_determines(a: Plaintext, b: Plaintext)
    requires
        spec_repr_plaintext(a) == spec_repr_plaintext(b),
    ensures
        a@ == b@,
        a.wf() == b.wf(),
{
    a.lemma_parts();
    b.lemma_parts();
    a.val.lemma_view_is_digits();
    b.val.lemma_view_is_digits();
    a.val.lemma_wf_is_digits();
    b.val.lemma_wf_is_digits();
}

/// Equal encodable forms mean equal ciphertexts.
pub proof fn lemma_ciphertext_repr_determines(a: Ciphertext, b: Ciphertext)
    requires
        spec_repr_ciphertext(a) == spec_repr_ciphertext(b),
    ensures
        a@ == b@,
        a.wf() == b.wf(),
{
    a.lemma_parts();
    b.lemma_parts();
    a.val.lemma_view_is_digits();
    b.val.lemma_view_is_digits();
    a.val.lemma_wf_is_digits();
    b.val.lemma_wf_is_digits();
}

/// Equal encodable forms mean equal shares.
pub proof fn lemma_private_key_share_repr_determines(a: PrivateKeyShare, b: PrivateKeyShare)
    requires
        spec_repr_private_key_share(a) == spec_repr_private_key_share(b),
    ensures
        a.spec_i() == b.spec_i(),
        a.spec_si() == b.spec_si(),
{
    a.lemma_parts();
    b.lemma_parts();
    a.si.lemma_view_is_digits();
    b.si.lemma_view_is_digits();
}

/// Equal encodable forms mean equal partial decryptions.
pub proof fn lemma_partial_decryption_repr_determines(a: PartialDecryption, b: PartialDecryption)
    requires
        spec_repr_partial_decryption(a) == spec_repr_partial_decryption(b),
    ensures
        a.spec_id() == b.spec_id(),
        a.spec_val() == b.spec_val(),
{
    a.lemma_parts();
    b.lemma_parts();
    a.val.lemma_view_is_digits();
    b.val.lemma_view_is_digits();
}

/// Equal encodable forms mean equal public keys, well-formedness
/// included.
pub proof fn lemma_public_key_repr_determines(a: PublicKey, b: PublicKey)
    requires
        spec_repr_public_key(a) == spec_repr_public_key(b),
    ensures
        a.spec_w() == b.spec_w(),
        a.spec_l() == b.spec_l(),
        a.spec_n() == b.spec_n(),
        a.spec_g() == b.spec_g(),
        a.spec_n2() == b.spec_n2(),
        a.spec_delta() == b.spec_delta(),
        a.spec_combine_const() == b.spec_combine_const(),
        a.wf() == b.wf(),
{
    a.lemma_parts();
    b.lemma_parts();
    a.n.lemma_view_is_digits();
    b.n.lemma_view_is_digits();
    a.g.lemma_view_is_digits();
    b.g.lemma_view_is_digits();
    a.n2.lemma_view_is_digits();
    b.n2.lemma_view_is_digits();
    a.delta.lemma_view_is_digits();
    b.delta.lemma_view_is_digits();
    a.combine_shares_constant.lemma_view_is_digits();
    b.combine_shares_constant.lemma_view_is_digits();
    a.n.lemma_wf_is_digits();
    b.n.lemma_wf_is_digits();
    a.g.lemma_wf_is_digits();
    b.g.lemma_wf_is_digits();
    a.n2.lemma_wf_is_digits();
    b.n2.lemma_wf_is_digits();
    a.delta.lemma_wf_is_digits();
    b.delta.lemma_wf_is_digits();
    a.combine_shares_constant.lemma_wf_is_digits();
    b.combine_shares_constant.lemma_wf_is_digits();
}

/// Equal encodable forms mean equal private keys, well-formedness
/// included.
pub proof fn lemma_private_key_repr_determines(a: PrivateKey, b: PrivateKey)
    requires
        spec_repr_private_key(a) == spec_repr_private_key(b),
    ensures
        a.spec_w() == b.spec_w(),
        a.spec_l() == b.spec_l(),
        a.spec_d() == b.spec_d(),
        a.spec_n() == b.spec_n(),
        a.spec_n2() == b.spec_n2(),
        a.spec_nm() == b.spec_nm(),
        a.wf() == b.wf(),
{
    a.lemma_parts();
    b.lemma_parts();
    a.d.lemma_view_is_digits();
    b.d.lemma_view_is_digits();
    a.n.lemma_view_is_digits();
    b.n.lemma_view_is_digits();
    a.n2.lemma_view_is_digits();
    b.n2.lemma_view_is_digits();
    a.nm.lemma_view_is_digits();
    b.nm.lemma_view_is_digits();
    a.d.lemma_wf_is_digits();
    b.d.lemma_wf_is_digits();
    a.n.lemma_wf_is_digits();
    b.n.lemma_wf_is_digits();
    a.n2.lemma_wf_is_digits();
    b.n2.lemma_wf_is_digits();
    a.nm.lemma_wf_is_digits();
    b.nm.lemma_wf_is_digits();
}

} // verus!
