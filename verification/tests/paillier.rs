use rand::seq::SliceRandom;
use rand::thread_rng;
use threshold_paillier::paillier::{generate_key_pair, Polynomial};
use threshold_paillier::rand::Rng;
use threshold_paillier::{Error, Plaintext};

#[test]
fn test_single_server() {
    let (pk, sk) = generate_key_pair(128, 1, 1).unwrap();
    let mut rand = Rng::new();
    let c = pk.encrypt(Plaintext::from_u64(5), &mut rand);
    let key_share = Polynomial::new(&sk, &mut rand).compute(0);
    let share_decrypt = key_share.share_decrypt(&pk, c);
    let combined = pk.share_combine(&[share_decrypt]).unwrap();
    assert!(combined.eq_u64(5));
}

#[test]
fn test_multiple_server() {
    let (pk, sk) = generate_key_pair(128, 3, 3).unwrap();
    let mut rand = Rng::new();
    let c = pk.encrypt(Plaintext::from_u64(10), &mut rand);
    let key_shares = sk.share(&[0, 1, 2], &mut rand).unwrap();

    let shares: Vec<_> = key_shares
        .iter()
        .map(|key_share| key_share.share_decrypt(&pk, c.clone()))
        .collect();
    let combined = pk.share_combine(&shares).unwrap();
    assert!(combined.eq_u64(10));
}

#[test]
fn test_shuffled_shares() {
    let (pk, sk) = generate_key_pair(128, 3, 3).unwrap();
    let mut rand = Rng::new();
    let c = pk.encrypt(Plaintext::from_u64(10), &mut rand);
    let key_shares = sk.share(&[0, 1, 2], &mut rand).unwrap();
    let mut shares: Vec<_> = key_shares
        .iter()
        .map(|key_share| key_share.share_decrypt(&pk, c.clone()))
        .collect();
    shares.shuffle(&mut thread_rng());
    let combined = pk.share_combine(&shares).unwrap();
    assert!(combined.eq_u64(10));
}

#[test]
fn test_multiple_server_lower_threshold() {
    let (pk, sk) = generate_key_pair(128, 3, 2).unwrap();
    let mut rand = Rng::new();
    let c = pk.encrypt(Plaintext::from_u64(10), &mut rand);
    let key_shares = sk.share(&[0, 2], &mut rand).unwrap();

    let shares: Vec<_> = key_shares
        .iter()
        .map(|key_share| key_share.share_decrypt(&pk, c.clone()))
        .collect();
    let combined = pk.share_combine(&shares).unwrap();
    assert!(combined.eq_u64(10));
}

#[test]
fn test_add_encrypted() {
    let (pk, sk) = generate_key_pair(512, 1, 1).unwrap();
    let mut rand = Rng::new();
    let mut c = pk.encrypt(Plaintext::from_u64(42), &mut rand);
    let c2 = pk.encrypt(Plaintext::from_u64(999), &mut rand);
    pk.add_encrypted(&mut c, &c2);
    let key_share = Polynomial::new(&sk, &mut rand).compute(0);
    let share_decrypt = key_share.share_decrypt(&pk, c);
    let combined = pk.share_combine(&[share_decrypt]).unwrap();
    assert!(combined.eq_u64(1041));
}

#[test]
fn test_mul_plain() {
    let (pk, sk) = generate_key_pair(512, 1, 1).unwrap();
    let mut rand = Rng::new();
    let mut c = pk.encrypt(Plaintext::from_u64(7), &mut rand);
    pk.mul_plain(&mut c, &Plaintext::from_u64(6));
    let key_share = Polynomial::new(&sk, &mut rand).compute(0);
    let share_decrypt = key_share.share_decrypt(&pk, c);
    let combined = pk.share_combine(&[share_decrypt]).unwrap();
    assert!(combined.eq_u64(42));
}

#[test]
fn test_add_plain() {
    let (pk, sk) = generate_key_pair(512, 1, 1).unwrap();
    let mut rand = Rng::new();
    let mut c = pk.encrypt(Plaintext::from_u64(100), &mut rand);
    pk.add_plain(&mut c, &Plaintext::from_u64(23));
    let key_share = Polynomial::new(&sk, &mut rand).compute(0);
    let share_decrypt = key_share.share_decrypt(&pk, c);
    let combined = pk.share_combine(&[share_decrypt]).unwrap();
    assert!(combined.eq_u64(123));
}

#[test]
fn test_reencrypt_preserves_plaintext() {
    let (pk, sk) = generate_key_pair(128, 1, 1).unwrap();
    let mut rand = Rng::new();
    let mut c = pk.encrypt(Plaintext::from_u64(77), &mut rand);
    pk.reencrypt(&mut c, &mut rand);
    let key_share = Polynomial::new(&sk, &mut rand).compute(0);
    let share_decrypt = key_share.share_decrypt(&pk, c);
    let combined = pk.share_combine(&[share_decrypt]).unwrap();
    assert!(combined.eq_u64(77));
}

#[test]
fn test_duplicate_share_ids_rejected() {
    let (pk, sk) = generate_key_pair(128, 1, 1).unwrap();
    let mut rand = Rng::new();
    let c = pk.encrypt(Plaintext::from_u64(10), &mut rand);
    let key_share = Polynomial::new(&sk, &mut rand).compute(0);
    let pd1 = key_share.share_decrypt(&pk, c.clone());
    let pd2 = key_share.share_decrypt(&pk, c);
    let result = pk.share_combine(&[pd1, pd2]);
    assert!(matches!(result, Err(Error::PreconditionViolated)));
}

#[test]
fn test_share_wrong_index_count_rejected() {
    let (_pk, sk) = generate_key_pair(128, 3, 2).unwrap();
    let mut rand = Rng::new();
    let result = sk.share(&[0, 1, 2], &mut rand);
    assert!(matches!(result, Err(Error::PreconditionViolated)));
}

#[test]
fn test_share_duplicate_indices_rejected() {
    let (_pk, sk) = generate_key_pair(128, 3, 2).unwrap();
    let mut rand = Rng::new();
    let result = sk.share(&[1, 1], &mut rand);
    assert!(matches!(result, Err(Error::PreconditionViolated)));
}

#[test]
fn test_tiny_modulus_rejected() {
    let result = generate_key_pair(4, 1, 1);
    assert!(matches!(result, Err(Error::PrimeGen)));
}

#[test]
fn test_plaintext_value_comparison() {
    let p = Plaintext::from_u64(123456789);
    assert!(p.eq_u64(123456789));
    assert!(!p.eq_u64(123456788));
    assert!(!p.eq_u64(0));
    let zero = Plaintext::from_u64(0);
    assert!(zero.eq_u64(0));
    assert!(!zero.eq_u64(256));
}

#[test]
fn test_plaintext_ordering() {
    let p = Plaintext::from_u64(1000);
    assert!(p.lt_u64(1001));
    assert!(!p.lt_u64(1000));
    assert!(!p.lt_u64(999));
    assert!(Plaintext::from_u64(0).lt_u64(1));
    assert!(p.lt(&Plaintext::from_u64(100000)));
    assert!(!p.lt(&Plaintext::from_u64(3)));
}

#[test]
fn test_plaintext_from_bool() {
    assert!(Plaintext::from_bool(true).eq_u64(1));
    assert!(Plaintext::from_bool(false).eq_u64(0));
}

#[test]
fn test_plaintext_width_constructors() {
    assert_eq!(Plaintext::from_u8(200), Plaintext::from_u64(200));
    assert_eq!(Plaintext::from_u16(40000), Plaintext::from_u64(40000));
    assert_eq!(Plaintext::from_u32(70000), Plaintext::from_u64(70000));
    assert_eq!(Plaintext::from_usize(12345), Plaintext::from_u64(12345));
    assert_eq!(Plaintext::from_u128(1 << 70), Plaintext::from_u128(1 << 70));
    assert!(Plaintext::from_u128((1u128 << 64) + 7).lt(&Plaintext::from_u128(1u128 << 65)));
    assert_eq!(Plaintext::from_i8(17), Plaintext::from_u64(17));
    assert_eq!(Plaintext::from_i16(1700), Plaintext::from_u64(1700));
    assert_eq!(Plaintext::from_i32(170000), Plaintext::from_u64(170000));
    assert_eq!(Plaintext::from_i64(17000000), Plaintext::from_u64(17000000));
    assert_eq!(Plaintext::from_isize(42), Plaintext::from_u64(42));
    assert_eq!(Plaintext::from_i128(99), Plaintext::from_u64(99));
}
