use chacha20poly1305::aead::{Aead, Payload};
use chacha20poly1305::{ChaCha20Poly1305, KeyInit};
use rand::RngCore;
use shairplay::crypto::aead::TAG_LEN;
use shairplay::crypto::chacha_transport::{CipherContext, EncryptedChannel, MAX_BLOCK_LEN};
use shairplay::error::CryptoError;
use shairplay::raop::event_channel::{EventChannel, EventError, MAX_ENCRYPTED_EVENT_BUFFER_LEN};

fn random_key() -> [u8; 32] {
    rand::random::<[u8; 32]>()
}

fn random_secret() -> [u8; 64] {
    let mut secret = [0u8; 64];
    rand::thread_rng().fill_bytes(&mut secret);
    secret
}

fn encrypt_expected_frame(key: [u8; 32], counter: u64, plain: &[u8]) -> Vec<u8> {
    let cipher = ChaCha20Poly1305::new((&key).into());
    let mut nonce = [0u8; 12];
    nonce[4..12].copy_from_slice(&counter.to_le_bytes());
    let block_len = (plain.len() as u16).to_le_bytes();
    let ct = cipher
        .encrypt(
            (&nonce).into(),
            Payload {
                msg: plain,
                aad: &block_len,
            },
        )
        .expect("reference encrypt should succeed");

    let mut out = Vec::with_capacity(2 + ct.len());
    out.extend_from_slice(&block_len);
    out.extend_from_slice(&ct);
    out
}

fn encrypt_expected_frames(key: [u8; 32], mut counter: u64, plain: &[u8]) -> Vec<u8> {
    let mut out = Vec::new();
    for chunk in plain.chunks(MAX_BLOCK_LEN) {
        out.extend_from_slice(&encrypt_expected_frame(key, counter, chunk));
        counter += 1;
    }
    out
}

#[test]
fn roundtrip_single_block() {
    let key = random_key();
    let mut enc = CipherContext::new(key);
    let mut dec = CipherContext::new(key);

    let plain = b"Hello, AirPlay 2!";
    let ct = enc.encrypt(plain).unwrap();
    let (pt, consumed) = dec.decrypt(&ct).unwrap();
    assert_eq!(pt, plain);
    assert_eq!(consumed, ct.len());
}

#[test]
fn roundtrip_multi_block() {
    let key = random_key();
    let mut enc = CipherContext::new(key);
    let mut dec = CipherContext::new(key);

    let plain: Vec<u8> = (0u16..2500).map(|i| (i & 0xff) as u8).collect();
    let ct = enc.encrypt(&plain).unwrap();
    assert_eq!(enc.counter, 3);

    let (pt, consumed) = dec.decrypt(&ct).unwrap();
    assert_eq!(pt, plain);
    assert_eq!(consumed, ct.len());
    assert_eq!(dec.counter, 3);
}

#[test]
fn incremental_decrypt() {
    let key = random_key();
    let mut enc = CipherContext::new(key);
    let mut dec = CipherContext::new(key);

    let ct = enc.encrypt(b"test data here").unwrap();

    let (pt, consumed) = dec.decrypt(&ct[..5]).unwrap();
    assert!(pt.is_empty());
    assert_eq!(consumed, 0);

    let (pt, consumed) = dec.decrypt(&ct).unwrap();
    assert_eq!(pt, b"test data here");
    assert_eq!(consumed, ct.len());
}

#[test]
fn corrupted_tag_rejected() {
    let key = random_key();
    let mut enc = CipherContext::new(key);
    let mut dec = CipherContext::new(key);

    let mut ct = enc.encrypt(b"secret").unwrap();
    let last = ct.len() - 1;
    ct[last] ^= 0xff;

    assert!(dec.decrypt(&ct).is_err());
}

#[test]
fn encrypted_channel_control() {
    let secret = random_secret();
    let server = EncryptedChannel::control(&secret).unwrap();
    assert_ne!(server.encrypt_ctx.key, [0u8; 32]);
    assert_ne!(server.decrypt_ctx.key, [0u8; 32]);
    assert_ne!(server.encrypt_ctx.key, server.decrypt_ctx.key);
}

#[test]
fn encrypted_channel_events() {
    let secret = random_secret();
    let server = EncryptedChannel::events(&secret).unwrap();
    assert_ne!(server.encrypt_ctx.key, [0u8; 32]);
    assert_ne!(server.decrypt_ctx.key, [0u8; 32]);
    assert_ne!(server.encrypt_ctx.key, server.decrypt_ctx.key);
}

#[test]
fn channel_keys_come_from_hkdf() {
    let secret = random_secret();
    let mut expected = [0u8; 32];
    hkdf::Hkdf::<sha2::Sha512>::new(Some(b"Control-Salt"), &secret)
        .expand(b"Control-Read-Encryption-Key", &mut expected)
        .unwrap();
    let server = EncryptedChannel::control(&secret).unwrap();
    assert_eq!(server.encrypt_ctx.key, expected);
    hkdf::Hkdf::<sha2::Sha512>::new(Some(b"Control-Salt"), &secret)
        .expand(b"Control-Write-Encryption-Key", &mut expected)
        .unwrap();
    assert_eq!(server.decrypt_ctx.key, expected);
}

#[test]
fn mirrored_channels_talk_to_each_other() {
    let secret = random_secret();
    let mut server = EncryptedChannel::control(&secret).unwrap();
    let mut client = EncryptedChannel::new(
        &secret,
        "Control-Salt",
        "Control-Write-Encryption-Key",
        "Control-Salt",
        "Control-Read-Encryption-Key",
    )
    .unwrap();
    let wire = client.encrypt_ctx.encrypt(b"OPTIONS * RTSP/1.0").unwrap();
    let (plain, _) = server.decrypt_ctx.decrypt(&wire).unwrap();
    assert_eq!(plain, b"OPTIONS * RTSP/1.0");
    let wire = server.encrypt_ctx.encrypt(b"RTSP/1.0 200 OK").unwrap();
    let (plain, _) = client.decrypt_ctx.decrypt(&wire).unwrap();
    assert_eq!(plain, b"RTSP/1.0 200 OK");
}

#[test]
fn encrypt_empty_plaintext_is_noop() {
    let key = random_key();
    let mut enc = CipherContext::new(key);
    let ct = enc.encrypt(&[]).unwrap();
    assert!(ct.is_empty());
    assert_eq!(enc.counter, 0);
}

#[test]
fn decrypt_rejects_zero_length_frame() {
    let key = random_key();
    let mut dec = CipherContext::new(key);
    let mut frame = vec![0u8; 2 + TAG_LEN];
    frame[0] = 0;
    frame[1] = 0;
    assert!(matches!(
        dec.decrypt(&frame),
        Err(CryptoError::Transport(msg)) if msg.contains("block length: 0")
    ));
}

#[test]
fn encrypt_rejects_counter_exhaustion() {
    let key = random_key();
    let mut enc = CipherContext::new(key);
    enc.counter = u64::MAX;
    assert!(matches!(
        enc.encrypt(b"x"),
        Err(CryptoError::Transport(msg)) if msg.contains("counter exhausted")
    ));
}

#[test]
fn encrypt_uses_the_last_counter_value_and_no_more() {
    let key = random_key();
    let mut enc = CipherContext::new(key);
    enc.counter = u64::MAX - 2;
    assert_eq!(enc.encrypt(&[7u8; 2048]).unwrap().len(), 2048 + 2 * 18);
    assert_eq!(enc.counter, u64::MAX);

    enc.counter = u64::MAX - 2;
    let err = enc.encrypt(&[7u8; 2049]).unwrap_err();
    assert_eq!(err.message(), "nonce counter exhausted before encryption");
    assert_eq!(enc.counter, u64::MAX);
}

#[test]
fn decrypt_rejects_counter_exhaustion() {
    let key = random_key();
    let mut enc = CipherContext::new(key);
    let frame = enc.encrypt(b"x").unwrap();

    let mut dec = CipherContext::new(key);
    dec.counter = u64::MAX;
    assert!(matches!(
        dec.decrypt(&frame),
        Err(CryptoError::Transport(msg)) if msg.contains("counter exhausted")
    ));
}

#[test]
fn c_vector_single_block() {
    let key = random_key();
    let mut enc = CipherContext::new(key);
    let plain = b"Hello, AirPlay 2!";
    let ct = enc.encrypt(plain).unwrap();
    let expected = encrypt_expected_frame(key, 0, plain);
    assert_eq!(ct, expected);
}

#[test]
fn c_vector_counter_0() {
    let key = random_key();
    let mut enc = CipherContext::new(key);
    let plain: Vec<u8> = (0u8..100).collect();
    let ct = enc.encrypt(&plain).unwrap();
    let expected = encrypt_expected_frames(key, 0, &plain);
    assert_eq!(ct, expected);
}

#[test]
fn c_vector_counter_1() {
    let key = random_key();
    let mut enc = CipherContext::new(key);
    enc.counter = 1;
    let plain: Vec<u8> = (0u8..100).collect();
    let ct = enc.encrypt(&plain).unwrap();
    let expected = encrypt_expected_frames(key, 1, &plain);
    assert_eq!(ct, expected);
}

#[test]
fn decrypt_stops_at_the_block_that_is_not_authentic() {
    let key = random_key();
    let mut enc = CipherContext::new(key);
    let mut wire = enc.encrypt(b"first").unwrap();
    let good = wire.len();
    wire.extend_from_slice(&enc.encrypt(b"second").unwrap());
    wire[good + 3] ^= 1;
    let mut dec = CipherContext::new(key);
    let err = dec.decrypt(&wire).unwrap_err();
    assert_eq!(err.message(), "ChaCha20 decrypt failed");
    assert_eq!(dec.counter, 1);
}

#[test]
fn messages_are_read_from_one_stream_in_order() {
    let key = random_key();
    let mut enc = CipherContext::new(key);
    let mut wire = enc.encrypt(b"first").unwrap();
    wire.extend_from_slice(&enc.encrypt(&[1u8; 1500]).unwrap());
    wire.extend_from_slice(&[9, 0, 1]);
    let mut dec = CipherContext::new(key);
    let (plain, consumed) = dec.decrypt(&wire).unwrap();
    let mut expected = b"first".to_vec();
    expected.extend_from_slice(&[1u8; 1500]);
    assert_eq!(plain, expected);
    assert_eq!(consumed, wire.len() - 3);
    assert_eq!(dec.counter, enc.counter);
}

fn server_event_channel(secret: &[u8; 64]) -> EncryptedChannel {
    EncryptedChannel::events(secret).expect("server event channel")
}

fn client_event_channel(secret: &[u8; 64]) -> EncryptedChannel {
    EncryptedChannel::new(
        secret,
        "Events-Salt",
        "Events-Read-Encryption-Key",
        "Events-Salt",
        "Events-Write-Encryption-Key",
    )
    .expect("client event channel")
}

#[test]
fn handle_stream_sends_encrypted_outbound_data() {
    let secret = [0x44u8; 64];
    let mut server = EventChannel::new(server_event_channel(&secret));
    let payload = b"update-info-payload".to_vec();
    let encrypted = server.on_send(&payload).expect("queue outbound event");
    assert!(!encrypted.is_empty());

    let mut client_channel = client_event_channel(&secret);
    let (plain, consumed) = client_channel
        .decrypt_ctx
        .decrypt(&encrypted)
        .expect("decrypt outbound frame");
    assert_eq!(consumed, encrypted.len());
    assert_eq!(plain, payload);
}

#[test]
fn handle_stream_stops_on_decrypt_error() {
    let secret = [0x77u8; 64];
    let mut server = EventChannel::new(server_event_channel(&secret));
    let bad_frame = vec![0u8; 2 + 16];
    assert!(matches!(
        server.on_data(&bad_frame),
        Err(EventError::Crypto(e)) if e.message() == "invalid framed block length: 0"
    ));
}

#[test]
fn handle_stream_stops_when_encrypted_buffer_exceeds_limit() {
    let secret = [0x99u8; 64];
    let mut server = EventChannel::new(server_event_channel(&secret));
    let mut oversized = Vec::with_capacity(MAX_ENCRYPTED_EVENT_BUFFER_LEN + 1024);
    oversized.extend_from_slice(&[0xff, 0xff]);
    oversized.resize(MAX_ENCRYPTED_EVENT_BUFFER_LEN + 1024, 0u8);
    assert!(matches!(
        server.on_data(&oversized),
        Err(EventError::BufferFull(n)) if n == MAX_ENCRYPTED_EVENT_BUFFER_LEN + 1024
    ));
}

#[test]
fn event_stream_can_be_cut_anywhere() {
    let secret = [0x31u8; 64];
    let mut client = client_event_channel(&secret);
    let message: Vec<u8> = (0..1300u32).map(|i| (i % 251) as u8).collect();
    let mut wire = client.encrypt_ctx.encrypt(&message).unwrap();
    wire.extend_from_slice(&client.encrypt_ctx.encrypt(b"tail").unwrap());

    for size in [1usize, 7, 500, 5000] {
        let mut server = EventChannel::new(server_event_channel(&secret));
        let mut plain = Vec::new();
        for piece in wire.chunks(size) {
            plain.extend_from_slice(&server.on_data(piece).unwrap());
        }
        let mut expected = message.clone();
        expected.extend_from_slice(b"tail");
        assert_eq!(plain, expected);
        assert!(server.encrypted_buf.is_empty());
        assert_eq!(server.channel.decrypt_ctx.counter, 3);
    }
}

#[test]
fn event_send_reports_a_used_up_counter() {
    let secret = [0x12u8; 64];
    let mut server = EventChannel::new(server_event_channel(&secret));
    server.channel.encrypt_ctx.counter = u64::MAX;
    let err = server.on_send(b"x").unwrap_err();
    assert_eq!(err.message(), "nonce counter exhausted before encryption");
}

#[test]
fn equal_blocks_do_not_look_alike() {
    let mut enc = CipherContext::new(random_key());
    let first = enc.encrypt(b"same words").unwrap();
    let second = enc.encrypt(b"same words").unwrap();
    assert_ne!(first, second);
    enc.counter = 0;
    assert_eq!(enc.encrypt(b"same words").unwrap(), first);
}
