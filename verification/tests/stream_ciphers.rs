use aes::cipher::{Array, BlockCipherEncrypt, KeyInit};
use aes::Aes128;
use shairplay::crypto::aes::AesCtr;
use shairplay::crypto::block::{counter_advance, BLOCK_SIZE};
use shairplay::crypto::video_cipher::VideoCipher;

fn random_key_nonce() -> ([u8; 16], [u8; 16]) {
    (rand::random::<[u8; 16]>(), rand::random::<[u8; 16]>())
}

fn inc_counter_be(counter: &mut [u8; BLOCK_SIZE]) {
    let mut carry: u16 = 1;
    for i in (0..BLOCK_SIZE).rev() {
        carry += counter[i] as u16;
        counter[i] = carry as u8;
        carry >>= 8;
    }
}

#[test]
fn aes_ctr_empty_input_is_noop() {
    let (key, nonce) = random_key_nonce();
    let mut ctr = AesCtr::new(&key, &nonce);
    let mut data = Vec::<u8>::new();
    ctr.encrypt(&mut data);
    assert!(data.is_empty());
    assert_eq!(ctr.available(), 0);
}

#[test]
fn aes_ctr_counter_carry_matches_manual_keystream() {
    let key = rand::random::<[u8; 16]>();
    let mut counter = [0u8; 16];
    counter[15] = 0xFF;

    let mut ctr_data = [0u8; 32];
    AesCtr::new(&key, &counter).encrypt(&mut ctr_data);

    let cipher = Aes128::new((&key).into());
    let mut expected = [0u8; 32];

    let mut c0 = Array::from(counter);
    cipher.encrypt_block(&mut c0);
    expected[..16].copy_from_slice(&c0);

    inc_counter_be(&mut counter);
    let mut c1 = Array::from(counter);
    cipher.encrypt_block(&mut c1);
    expected[16..].copy_from_slice(&c1);

    assert_eq!(ctr_data, expected);
}

#[test]
fn aes_ctr_known_answer() {
    // The first counter-mode example for AES-128 in NIST SP 800-38A.
    let key = [
        0x2b, 0x7e, 0x15, 0x16, 0x28, 0xae, 0xd2, 0xa6, 0xab, 0xf7, 0x15, 0x88, 0x09, 0xcf, 0x4f,
        0x3c,
    ];
    let nonce = [
        0xf0, 0xf1, 0xf2, 0xf3, 0xf4, 0xf5, 0xf6, 0xf7, 0xf8, 0xf9, 0xfa, 0xfb, 0xfc, 0xfd, 0xfe,
        0xff,
    ];
    let mut data = [
        0x6b, 0xc1, 0xbe, 0xe2, 0x2e, 0x40, 0x9f, 0x96, 0xe9, 0x3d, 0x7e, 0x11, 0x73, 0x93, 0x17,
        0x2a, 0xae, 0x2d, 0x8a, 0x57, 0x1e, 0x03, 0xac, 0x9c, 0x9e, 0xb7, 0x6f, 0xac, 0x45, 0xaf,
        0x8e, 0x51,
    ];
    let expected = [
        0x87, 0x4d, 0x61, 0x91, 0xb6, 0x20, 0xe3, 0x26, 0x1b, 0xef, 0x68, 0x64, 0x99, 0x0d, 0xb6,
        0xce, 0x98, 0x06, 0xf6, 0x6b, 0x79, 0x70, 0xfd, 0xff, 0x86, 0x17, 0x18, 0x7b, 0xb9, 0xff,
        0xfd, 0xff,
    ];
    AesCtr::new(&key, &nonce).encrypt(&mut data);
    assert_eq!(data, expected);
}

#[test]
fn aes_ctr_keeps_its_place_inside_a_block() {
    let (key, nonce) = random_key_nonce();
    let original: Vec<u8> = (0u8..50).collect();

    let mut whole = original.clone();
    AesCtr::new(&key, &nonce).encrypt(&mut whole);

    let mut ctr = AesCtr::new(&key, &nonce);
    let mut pieces = original.clone();
    ctr.encrypt(&mut pieces[..5]);
    assert_eq!(ctr.available(), 11);
    ctr.encrypt(&mut pieces[5..21]);
    assert_eq!(ctr.available(), 11);
    ctr.encrypt(&mut pieces[21..]);
    assert_eq!(pieces, whole);
    assert_eq!(ctr.available(), 14);
}

#[test]
fn both_stream_ciphers_agree_and_undo_each_other() {
    let (key, nonce) = random_key_nonce();
    let original: Vec<u8> = (0u8..77).collect();
    let mut data = original.clone();
    AesCtr::new(&key, &nonce).encrypt(&mut data);
    assert_ne!(data, original);
    VideoCipher::new(&key, &nonce).decrypt(&mut data);
    assert_eq!(data, original);
}

#[test]
fn counter_advances_and_wraps() {
    let mut counter = [0u8; 16];
    counter[15] = 0xff;
    counter[14] = 0xff;
    let next = counter_advance(&counter, 1);
    let mut expected = [0u8; 16];
    expected[13] = 1;
    assert_eq!(next, expected);

    let last = [0xffu8; 16];
    assert_eq!(counter_advance(&last, 1), [0u8; 16]);
    assert_eq!(counter_advance(&last, 0), last);

    let far = counter_advance(&[0u8; 16], u64::MAX);
    let mut expected = [0u8; 16];
    expected[8..].copy_from_slice(&[0xff; 8]);
    assert_eq!(far, expected);
}

#[test]
fn decrypt_full_blocks() {
    let key = [0x01u8; 16];
    let iv = [0x00u8; 16];
    let mut cipher1 = VideoCipher::new(&key, &iv);
    let mut cipher2 = VideoCipher::new(&key, &iv);

    let original = vec![0xAA; 32];
    let mut data = original.clone();
    cipher1.decrypt(&mut data);
    assert_ne!(data, original);
    cipher2.decrypt(&mut data);
    assert_eq!(data, original);
}

#[test]
fn decrypt_partial_blocks_streaming() {
    let key = [0x42u8; 16];
    let iv = [0x00u8; 16];

    let mut cipher_a = VideoCipher::new(&key, &iv);
    let mut chunk1 = vec![0u8; 10];
    let mut chunk2 = vec![0u8; 22];
    cipher_a.decrypt(&mut chunk1);
    cipher_a.decrypt(&mut chunk2);

    let mut cipher_b = VideoCipher::new(&key, &iv);
    let mut full = vec![0u8; 32];
    cipher_b.decrypt(&mut full);

    assert_eq!(&chunk1[..], &full[..10]);
    assert_eq!(&chunk2[..], &full[10..]);
}

#[test]
fn decrypt_tiny_chunks_matches_single_pass() {
    let key = [0x21u8; 16];
    let iv = [0x10u8; 16];

    let original: Vec<u8> = (0u8..40).collect();
    let mut chunked = original.clone();

    let mut cipher_a = VideoCipher::new(&key, &iv);
    let mut pos = 0usize;
    for &size in &[1usize, 1, 1, 5, 2, 8, 3, 4, 15] {
        let end = (pos + size).min(chunked.len());
        cipher_a.decrypt(&mut chunked[pos..end]);
        pos = end;
        if pos == chunked.len() {
            break;
        }
    }

    let mut single = original.clone();
    let mut cipher_b = VideoCipher::new(&key, &iv);
    cipher_b.decrypt(&mut single);

    assert_eq!(chunked, single);
}

#[test]
fn decrypt_empty_payload_keeps_state() {
    let key = [0xABu8; 16];
    let iv = [0xCDu8; 16];
    let mut cipher = VideoCipher::new(&key, &iv);

    let mut one = [0u8; 1];
    cipher.decrypt(&mut one);
    let before = cipher.leftover_count();
    assert_eq!(before, 15);

    let mut empty: [u8; 0] = [];
    cipher.decrypt(&mut empty);

    assert_eq!(cipher.leftover_count(), before);
}

#[test]
fn video_cipher_counter_wraps_like_the_block_counter() {
    let key = [0x5au8; 16];
    let iv = [0xffu8; 16];
    let mut video = vec![0u8; 48];
    let mut audio = vec![0u8; 48];
    let mut cipher = VideoCipher::new(&key, &iv);
    cipher.decrypt(&mut video[..20]);
    cipher.decrypt(&mut video[20..]);
    AesCtr::new(&key, &iv).encrypt(&mut audio);
    assert_eq!(video, audio);
}
