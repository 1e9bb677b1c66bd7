use threshold_paillier::codec::{
    deserialize_ciphertext, deserialize_partial_decryption, deserialize_plaintext,
    deserialize_private_key, deserialize_private_key_share, deserialize_public_key,
    serialize_ciphertext, serialize_partial_decryption, serialize_plaintext,
    serialize_private_key, serialize_private_key_share, serialize_public_key,
};
use threshold_paillier::paillier::{generate_key_pair, Polynomial};
use threshold_paillier::rand::Rng;
use threshold_paillier::{Ciphertext, Plaintext};

#[test]
fn test_serde() {
    let p = Plaintext::from_u64(42);
    let ser = serialize_plaintext(&p);
    let deser = deserialize_plaintext(&ser).unwrap();
    assert_eq!(p, deser);
}

#[test]
fn test_plaintext_wire_form() {
    let p = Plaintext::from_u64(0x010203);
    let ser = serialize_plaintext(&p);
    assert_eq!(ser, vec![3, 0, 0, 0, 0, 0, 0, 0, 0x03, 0x02, 0x01]);
}

#[test]
fn test_zero_plaintext_round_trip() {
    let p = Plaintext::from_u64(0);
    let ser = serialize_plaintext(&p);
    assert_eq!(ser, vec![0, 0, 0, 0, 0, 0, 0, 0]);
    let deser = deserialize_plaintext(&ser).unwrap();
    assert_eq!(p, deser);
}

#[test]
fn test_key_round_trips() {
    let (pk, sk) = generate_key_pair(128, 3, 2).unwrap();
    let pk_bytes = serialize_public_key(&pk);
    let pk2 = deserialize_public_key(&pk_bytes).unwrap();
    assert_eq!(pk, pk2);
    let sk_bytes = serialize_private_key(&sk);
    let sk2 = deserialize_private_key(&sk_bytes).unwrap();
    assert_eq!(sk, sk2);
}

#[test]
fn test_share_round_trips() {
    let (pk, sk) = generate_key_pair(128, 2, 2).unwrap();
    let mut rand = Rng::new();
    let c = pk.encrypt(Plaintext::from_u64(9), &mut rand);
    let key_shares = sk.share(&[0, 1], &mut rand).unwrap();
    let ks_bytes = serialize_private_key_share(&key_shares[0]);
    let ks2 = deserialize_private_key_share(&ks_bytes).unwrap();
    assert_eq!(ks_bytes, serialize_private_key_share(&ks2));
    let pd = key_shares[1].share_decrypt(&pk, c.clone());
    let pd_bytes = serialize_partial_decryption(&pd);
    let pd2 = deserialize_partial_decryption(&pd_bytes).unwrap();
    assert_eq!(pd_bytes, serialize_partial_decryption(&pd2));
    let c_bytes = serialize_ciphertext(&c);
    let c2 = deserialize_ciphertext(&c_bytes).unwrap();
    assert_eq!(c_bytes, serialize_ciphertext(&c2));
}

#[test]
fn test_serialized_ciphertext_still_decrypts() {
    let (pk, sk) = generate_key_pair(128, 1, 1).unwrap();
    let mut rand = Rng::new();
    let c = pk.encrypt(Plaintext::from_u64(31), &mut rand);
    let c2 = deserialize_ciphertext(&serialize_ciphertext(&c)).unwrap();
    let key_share = Polynomial::new(&sk, &mut rand).compute(0);
    let share_decrypt = key_share.share_decrypt(&pk, c2);
    let combined = pk.share_combine(&[share_decrypt]).unwrap();
    assert!(combined.eq_u64(31));
}

#[test]
fn test_ciphertext_from_u64_round_trip() {
    let c = Ciphertext::from_u64(123456);
    let ser = serialize_ciphertext(&c);
    let c2 = deserialize_ciphertext(&ser).unwrap();
    assert_eq!(ser, serialize_ciphertext(&c2));
}

#[test]
fn test_truncated_input_rejected() {
    let p = Plaintext::from_u64(300);
    let mut ser = serialize_plaintext(&p);
    ser.pop();
    assert!(deserialize_plaintext(&ser).is_none());
}

#[test]
fn test_trailing_garbage_rejected() {
    let p = Plaintext::from_u64(300);
    let mut ser = serialize_plaintext(&p);
    ser.push(0);
    assert!(deserialize_plaintext(&ser).is_none());
}

#[test]
fn test_deserialized_keys_validate() {
    let (pk, sk) = generate_key_pair(128, 3, 2).unwrap();
    assert!(pk.check());
    assert!(sk.check());
    let pk2 = deserialize_public_key(&serialize_public_key(&pk)).unwrap();
    assert!(pk2.check());
    let sk2 = deserialize_private_key(&serialize_private_key(&sk)).unwrap();
    assert!(sk2.check());
}

#[test]
fn test_tampered_key_fails_validation() {
    let (pk, _sk) = generate_key_pair(128, 3, 2).unwrap();
    let mut bytes = serialize_public_key(&pk);
    bytes[0] = 0;
    bytes[1] = 0;
    bytes[2] = 0;
    bytes[3] = 0;
    let broken = deserialize_public_key(&bytes).unwrap();
    assert!(!broken.check());
}

#[test]
fn test_deserialized_values_validate() {
    let (pk, sk) = generate_key_pair(128, 2, 2).unwrap();
    let mut rand = Rng::new();
    let c = pk.encrypt(Plaintext::from_u64(4), &mut rand);
    let c2 = deserialize_ciphertext(&serialize_ciphertext(&c)).unwrap();
    assert!(c2.check());
    let key_shares = sk.share(&[0, 1], &mut rand).unwrap();
    let ks2 = deserialize_private_key_share(&serialize_private_key_share(&key_shares[0])).unwrap();
    assert!(ks2.check());
    let pd = key_shares[0].share_decrypt(&pk, c2);
    let pd2 = deserialize_partial_decryption(&serialize_partial_decryption(&pd)).unwrap();
    assert!(pd2.check());
    let p2 = deserialize_plaintext(&serialize_plaintext(&Plaintext::from_u64(9))).unwrap();
    assert!(p2.check());
}

#[test]
fn test_empty_input_rejected() {
    assert!(deserialize_public_key(&[]).is_none());
    assert!(deserialize_private_key(&[]).is_none());
    assert!(deserialize_plaintext(&[1, 2, 3]).is_none());
}
