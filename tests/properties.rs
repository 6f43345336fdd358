use ascon::aead128::AEAD128;
use ascon::hash256::Hash256;
use ascon::hex::{parse_hex, HexError};
use ascon::round::{do_n_rounds, state_to_str};
use ascon::utils::pad_u64;
use rand::{Rng, RngCore};

const KEY: [u8; 16] = [0, 1, 2, 3, 4, 5, 6, 7, 8, 9, 10, 11, 12, 13, 14, 15];
const NONCE: [u8; 16] = [0, 1, 2, 3, 4, 5, 6, 7, 8, 9, 10, 11, 12, 13, 14, 15];
const LENGTHS: [usize; 8] = [0, 1, 8, 9, 15, 16, 17, 32];

fn bytes(n: usize, seed: u8) -> Vec<u8> {
    (0..n).map(|i| (i as u8).wrapping_mul(7).wrapping_add(seed)).collect()
}

#[test]
fn round_trip_at_block_boundaries() {
    for &ad_len in LENGTHS.iter() {
        for &p_len in LENGTHS.iter() {
            let ad = bytes(ad_len, 3);
            let plain = bytes(p_len, 11);
            let (cipher, tag) = AEAD128::encrypt(KEY, NONCE, &ad, &plain);
            assert_eq!(cipher.len(), plain.len());
            let back = AEAD128::decrypt(KEY, NONCE, &ad, &cipher, tag);
            assert_eq!(back, Some(plain));
        }
    }
}

#[test]
fn round_trip_random_inputs() {
    let mut rng = rand::thread_rng();
    for _ in 0..50 {
        let mut key = [0u8; 16];
        let mut nonce = [0u8; 16];
        rng.fill_bytes(&mut key);
        rng.fill_bytes(&mut nonce);
        let ad_len: usize = rng.gen_range(0..70);
        let p_len: usize = rng.gen_range(0..70);
        let mut ad = vec![0u8; ad_len];
        let mut plain = vec![0u8; p_len];
        rng.fill_bytes(&mut ad);
        rng.fill_bytes(&mut plain);
        let (cipher, tag) = AEAD128::encrypt(key, nonce, &ad, &plain);
        assert_eq!(cipher.len(), plain.len());
        assert_eq!(AEAD128::decrypt(key, nonce, &ad, &cipher, tag), Some(plain));
    }
}

#[test]
fn flipped_tag_bit_is_rejected() {
    for &p_len in LENGTHS.iter() {
        let plain = bytes(p_len, 5);
        let (cipher, mut tag) = AEAD128::encrypt(KEY, NONCE, &[1, 2, 3], &plain);
        tag[0] ^= 1;
        assert_eq!(AEAD128::decrypt(KEY, NONCE, &[1, 2, 3], &cipher, tag), None);
    }
}

#[test]
fn flipped_ciphertext_ad_key_nonce_bits_are_rejected() {
    let ad = bytes(17, 9);
    let plain = bytes(33, 4);
    let (cipher, tag) = AEAD128::encrypt(KEY, NONCE, &ad, &plain);

    let mut c2 = cipher.clone();
    c2[0] ^= 1;
    assert_eq!(AEAD128::decrypt(KEY, NONCE, &ad, &c2, tag), None);
    let mut c3 = cipher.clone();
    c3[32] ^= 0x80;
    assert_eq!(AEAD128::decrypt(KEY, NONCE, &ad, &c3, tag), None);

    let mut ad2 = ad.clone();
    ad2[16] ^= 1;
    assert_eq!(AEAD128::decrypt(KEY, NONCE, &ad2, &cipher, tag), None);

    let mut key2 = KEY;
    key2[15] ^= 1;
    assert_eq!(AEAD128::decrypt(key2, NONCE, &ad, &cipher, tag), None);

    let mut nonce2 = NONCE;
    nonce2[0] ^= 1;
    assert_eq!(AEAD128::decrypt(KEY, nonce2, &ad, &cipher, tag), None);
}

#[test]
fn empty_ad_differs_from_absent_blocks() {
    // Domain separation: the same plaintext under empty and one-byte AD
    // gives different tags.
    let (_, t0) = AEAD128::encrypt(KEY, NONCE, &[], &[]);
    let (_, t1) = AEAD128::encrypt(KEY, NONCE, &[0], &[]);
    assert_ne!(t0, t1);
}

#[test]
fn encrypt_is_deterministic() {
    let ad = bytes(9, 1);
    let plain = bytes(17, 2);
    let a = AEAD128::encrypt(KEY, NONCE, &ad, &plain);
    let b = AEAD128::encrypt(KEY, NONCE, &ad, &plain);
    assert_eq!(a, b);
}

#[test]
fn ciphertext_differs_from_plaintext() {
    let plain = bytes(32, 0);
    let (cipher, _) = AEAD128::encrypt(KEY, NONCE, &[], &plain);
    assert_ne!(cipher, plain);
}

#[test]
fn hash_of_empty_input() {
    assert_eq!(
        Hash256::hash(&[]),
        [
            0x0b, 0x3b, 0xe5, 0x85, 0x0f, 0x2f, 0x6b, 0x98, 0xca, 0xf2, 0x9f, 0x8f, 0xde, 0xa8,
            0x9b, 0x64, 0xa1, 0xfa, 0x70, 0xaa, 0x24, 0x9b, 0x8f, 0x83, 0x9b, 0xd5, 0x3b, 0xaa,
            0x30, 0x4d, 0x92, 0xb2
        ]
    );
}

#[test]
fn hash_is_deterministic_and_input_sensitive() {
    for &n in LENGTHS.iter() {
        let data = bytes(n, 6);
        let h = Hash256::hash(&data);
        assert_eq!(h, Hash256::hash(&data));
        let mut other = data.clone();
        other.push(0);
        assert_ne!(h, Hash256::hash(&other));
    }
}

#[test]
fn permutation_of_zero_state() {
    let mut a = [0u64; 5];
    do_n_rounds(&mut a, 12);
    assert_ne!(a, [0u64; 5]);
    let mut b = [0u64; 5];
    do_n_rounds(&mut b, 0);
    assert_eq!(b, [0u64; 5]);
    let mut c = [0u64; 5];
    do_n_rounds(&mut c, 8);
    assert_ne!(a, c);
}

#[test]
fn pad_sets_one_bit_after_size_bytes() {
    assert_eq!(pad_u64(0, 7), 0x0100_0000_0000_0000);
    assert_eq!(pad_u64(0x0100_0000_0000_0000, 7), 0);
    assert_eq!(pad_u64(0x12, 1), 0x112);
}

#[test]
fn state_display() {
    let s = [0u64, 0x1f, 0xabcdef, u64::MAX, 16];
    assert_eq!(
        state_to_str(&s),
        "x0=0x0 x1=0x1f x2=0xabcdef x3=0xffffffffffffffff x4=0x10"
    );
}

#[test]
fn hex_decoding() {
    assert_eq!(parse_hex("000102ff"), Ok(vec![0, 1, 2, 255]));
    assert_eq!(parse_hex("AbCd"), Ok(vec![0xab, 0xcd]));
    assert_eq!(parse_hex(""), Ok(vec![]));
    assert_eq!(parse_hex("+f"), Ok(vec![0x0f]));
    assert_eq!(parse_hex("abc"), Err(HexError::OddLength));
    assert_eq!(parse_hex("zz"), Err(HexError::InvalidDigit));
    assert_eq!(parse_hex("0g"), Err(HexError::InvalidDigit));
    assert_eq!(parse_hex("-1"), Err(HexError::InvalidDigit));
}
