use chacha20poly1305::aead::{Aead, Payload};
use chacha20poly1305::{ChaCha20Poly1305, KeyInit, Nonce};
use shairplay::raop::aac_payload::{
    aac_au_direct_label_for_offset, aac_au_label_for_offset, aac_raw_label_for_offset,
    collect_aac_payload_candidates, count_nonzero, extract_aac_access_unit,
    extract_aac_access_unit_direct_header, extract_aac_access_unit_shifted, prefix_hex,
    probe_aac_candidates, select_aac_payload, settle_aac_payload, starts_with_adts_sync,
    DecodeTrial, SILENCE_PEAK_BITS,
};
use shairplay::raop::audio_pipeline::{
    decrypt_rtp_chacha, AudioCodec, CHACHA_TAG_LEN, NONCE_TRAIL_LEN, RTP_HEADER_LEN,
};
use shairplay::raop::buffered_audio;
use shairplay::raop::buffered_audio::{
    apply_playout_command, delivery_step, enqueue, finish, make_decoder, must_wait,
    packet_body_len, packet_source_id, plan_aac, plan_alac, set_format, BufferedReceiver,
    DecoderSetup, PlayoutCommand, PlayoutState, SourceFormat,
};
use shairplay::raop::realtime_audio;
use shairplay::raop::realtime_audio::{
    alac_decoder_info, normalize_output_config, OutputConfig, RealtimeReceiver,
};

fn encrypt_frame(
    cipher: &ChaCha20Poly1305,
    header: [u8; 12],
    nonce_tail: [u8; 8],
    plaintext: &[u8],
) -> Vec<u8> {
    let mut nonce = [0u8; 12];
    nonce[4..12].copy_from_slice(&nonce_tail);
    let nonce = Nonce::try_from(&nonce[..]).unwrap();
    let ct = cipher
        .encrypt(
            &nonce,
            Payload {
                msg: plaintext,
                aad: &header[4..12],
            },
        )
        .unwrap();
    let mut pkt = header.to_vec();
    pkt.extend_from_slice(&ct);
    pkt.extend_from_slice(&nonce_tail);
    pkt
}

#[test]
fn decrypt_rtp_chacha_roundtrip() {
    let key = [7u8; 32];
    let cipher = ChaCha20Poly1305::new((&key).into());
    let header = [0x80, 0x60, 0, 1, 0, 0, 0, 2, 0, 0, 0, 3];
    let pkt = encrypt_frame(&cipher, header, [9u8; 8], b"alac payload bytes");
    assert_eq!(
        decrypt_rtp_chacha(&key, &pkt).as_deref(),
        Some(&b"alac payload bytes"[..])
    );
}

#[test]
fn decrypt_rtp_chacha_rejects_short_and_tampered() {
    let key = [7u8; 32];
    let cipher = ChaCha20Poly1305::new((&key).into());
    assert!(decrypt_rtp_chacha(
        &key,
        &[0u8; RTP_HEADER_LEN + CHACHA_TAG_LEN + NONCE_TRAIL_LEN - 1]
    )
    .is_none());
    let header = [0x80, 0x60, 0, 1, 0, 0, 0, 2, 0, 0, 0, 3];
    let mut pkt = encrypt_frame(&cipher, header, [9u8; 8], b"payload");
    pkt[RTP_HEADER_LEN] ^= 0xff;
    assert!(decrypt_rtp_chacha(&key, &pkt).is_none());

    let mut aad_tampered = encrypt_frame(&cipher, header, [9u8; 8], b"payload");
    aad_tampered[4] ^= 0x01;
    assert!(decrypt_rtp_chacha(&key, &aad_tampered).is_none());

    let mut nonce_tampered = encrypt_frame(&cipher, header, [9u8; 8], b"payload");
    let tail_start = nonce_tampered.len() - NONCE_TRAIL_LEN;
    nonce_tampered[tail_start] ^= 0x01;
    assert!(decrypt_rtp_chacha(&key, &nonce_tampered).is_none());
}

#[test]
fn the_first_header_bytes_are_not_authenticated() {
    let key = [7u8; 32];
    let cipher = ChaCha20Poly1305::new((&key).into());
    let header = [0x80, 0x60, 0, 1, 0, 0, 0, 2, 0, 0, 0, 3];
    let mut pkt = encrypt_frame(&cipher, header, [9u8; 8], b"");
    assert_eq!(pkt.len(), RTP_HEADER_LEN + CHACHA_TAG_LEN + NONCE_TRAIL_LEN);
    pkt[3] = 99;
    assert_eq!(decrypt_rtp_chacha(&key, &pkt).as_deref(), Some(&b""[..]));
}

fn fresh_state() -> PlayoutState<Vec<f32>> {
    let mut s = PlayoutState::new(&buffered_audio::OutputConfig {
        sample_rate: None,
        max_channels: None,
    });
    assert_eq!(s.sample_rate, 44_100);
    s.sample_rate = 44_100;
    s
}

#[test]
fn apply_playout_command_set_rate_sets_anchor_and_discards_stale() {
    let mut s = fresh_state();
    s.buffer.insert(10_000, vec![0.1; 4]);
    s.buffer.insert(20_000, vec![0.2; 4]);

    let keep = apply_playout_command(
        &mut s,
        PlayoutCommand::SetRate {
            anchor_rtp: 1,
            anchor_time_ns: 0,
            rate: 1,
        },
        || 123,
    );

    assert!(keep);
    assert_eq!(s.anchor_rtp, 5_590);
    assert_eq!(s.anchor_local_ns, 123);
    assert_eq!(s.rate, 1);
    assert!(s.buffer.contains_key(&10_000));
    assert!(s.buffer.contains_key(&20_000));
}

#[test]
fn apply_playout_command_flush_and_stop_paths() {
    let mut s = fresh_state();
    s.buffer.insert(100, vec![0.1]);
    s.buffer.insert(200, vec![0.2]);
    s.buffer.insert(300, vec![0.3]);

    let keep = apply_playout_command(
        &mut s,
        PlayoutCommand::Flush {
            from_seq: 150,
            until_seq: 300,
        },
        || 0,
    );
    assert!(keep);
    assert!(s.flush_pending);
    assert!(s.buffer.contains_key(&100));
    assert!(!s.buffer.contains_key(&200));
    assert!(!s.buffer.contains_key(&300));

    let keep = apply_playout_command(&mut s, PlayoutCommand::Stop, || 0);
    assert!(!keep);
    assert!(s.stopped);
    assert!(s.buffer.is_empty());
}

#[test]
fn set_rate_discards_frames_behind_the_anchor() {
    let mut s = fresh_state();
    // The smallest timestamp is the earliest; one more than half the range away lies behind it.
    s.buffer.insert(5_000, vec![]);
    s.buffer.insert(0x8000_0000 + 5_000, vec![]);
    s.buffer.insert(0xffff_0000, vec![]);
    apply_playout_command(
        &mut s,
        PlayoutCommand::SetRate {
            anchor_rtp: 77,
            anchor_time_ns: 1,
            rate: 1,
        },
        || 5,
    );
    assert_eq!(s.anchor_rtp, 590);
    assert_eq!(s.buffer.keys().copied().collect::<Vec<_>>(), vec![5_000]);
}

#[test]
fn pause_and_play_without_frames() {
    let mut s = fresh_state();
    apply_playout_command(
        &mut s,
        PlayoutCommand::SetRate {
            anchor_rtp: 77,
            anchor_time_ns: 1,
            rate: 1,
        },
        || 5,
    );
    assert_eq!((s.anchor_rtp, s.anchor_local_ns, s.rate), (77, 5, 1));
    enqueue(&mut s, 1, vec![0.5]);
    apply_playout_command(
        &mut s,
        PlayoutCommand::SetRate {
            anchor_rtp: 99,
            anchor_time_ns: 1,
            rate: 0,
        },
        || 6,
    );
    assert_eq!((s.anchor_rtp, s.anchor_local_ns, s.rate), (99, 5, 0));
    assert_eq!(s.buffer.len(), 1);
    assert!(must_wait(&s));
}

#[test]
fn delivery_loop_initializes_session_and_processes_ready_frames_and_flush() {
    let mut s = fresh_state();
    s.sample_rate = 10;
    s.channels = 2;
    s.format_changed = true;
    s.rate = 1;
    s.anchor_rtp = 0;
    s.anchor_local_ns = 1_000_000_000;
    s.flush_pending = true;
    s.buffer.insert(1, vec![0.1, 0.2]);
    s.buffer.insert(2, vec![0.3, 0.4]);
    assert!(!must_wait(&s));

    let round = delivery_step(&mut s, false, 3_000_000_000).expect("playout goes on");
    let format = round.format.expect("a session is made");
    assert_eq!(format.codec, AudioCodec::Pcm);
    assert_eq!((format.bits, format.channels, format.sample_rate), (32, 2, 10));
    assert!(round.flush);
    let processed: usize = round.frames.iter().map(|(_, samples)| samples.len()).sum();
    assert_eq!(processed, 4);
    assert!(s.buffer.is_empty());
    assert!(!s.flush_pending && !s.format_changed);
    assert!(must_wait(&s));

    s.stopped = true;
    assert!(!must_wait(&s));
    assert!(delivery_step(&mut s, true, 3_000_000_000).is_none());
}

#[test]
fn frames_come_out_when_they_are_due() {
    let mut s = fresh_state();
    s.sample_rate = 1_000;
    s.rate = 1;
    s.anchor_rtp = u32::MAX - 4;
    s.anchor_local_ns = 10;
    for ts in [u32::MAX - 1, u32::MAX, 0, 1, 100] {
        enqueue(&mut s, ts, vec![ts as f32]);
    }
    // Five frames after the anchor the timestamp has wrapped to zero.
    let round = delivery_step(&mut s, true, 10 + 5_000_000).unwrap();
    assert!(round.format.is_none() && !round.flush);
    let order: Vec<u32> = round.frames.iter().map(|(ts, _)| *ts).collect();
    assert_eq!(order, vec![0, u32::MAX - 1, u32::MAX]);
    assert_eq!(s.buffer.keys().copied().collect::<Vec<_>>(), vec![1, 100]);
    // A clock that stands before the anchor counts as no time gone by.
    let round = delivery_step(&mut s, true, 0).unwrap();
    assert!(round.frames.is_empty());
}

#[test]
fn nothing_is_played_while_paused() {
    let mut s = fresh_state();
    s.sample_rate = 1_000;
    s.rate = 0;
    s.anchor_rtp = 0;
    s.anchor_local_ns = 0;
    s.format_changed = true;
    enqueue(&mut s, 5, vec![1.0]);
    apply_playout_command(
        &mut s,
        PlayoutCommand::Flush { from_seq: 0, until_seq: 9 },
        || 0,
    );
    assert!(s.buffer.is_empty());
    enqueue(&mut s, 5, vec![1.0]);
    assert!(!must_wait(&s));
    let round = delivery_step(&mut s, true, 1_000_000_000).unwrap();
    assert!(round.format.is_some() && round.flush && round.frames.is_empty());
    assert_eq!(s.buffer.len(), 1);
    assert!(must_wait(&s));

    apply_playout_command(&mut s, PlayoutCommand::Stop, || 0);
    assert!(delivery_step(&mut s, true, 1_000_000_000).is_none());
}

#[test]
fn the_first_frame_waits_for_a_tenth_of_a_second() {
    let mut s = fresh_state();
    s.sample_rate = 1_000;
    enqueue(&mut s, 50, vec![1.0]);
    apply_playout_command(
        &mut s,
        PlayoutCommand::SetRate {
            anchor_rtp: 0,
            anchor_time_ns: 0,
            rate: 1,
        },
        || 7,
    );
    assert!(delivery_step(&mut s, true, 7 + 99_999_999).unwrap().frames.is_empty());
    assert_eq!(delivery_step(&mut s, true, 7 + 100_000_000).unwrap().frames.len(), 1);
}

#[test]
fn receive_loop_invalid_short_packet_marks_stopped() {
    // total_len = 1 (< 2) ends the stream.
    assert_eq!(packet_body_len(&[0, 1]), None);
    let mut s = fresh_state();
    enqueue(&mut s, 5, vec![0.0]);
    finish(&mut s);
    assert!(s.stopped);
    assert!(s.buffer.is_empty());
    assert_eq!(packet_body_len(&[0, 2]), Some(0));
    assert_eq!(packet_body_len(&[1, 4]), Some(258));
}

#[test]
fn buffered_receiver_takes_up_new_formats() {
    let key = [3u8; 32];
    let cipher = ChaCha20Poly1305::new((&key).into());
    let header = [0x80, 0x60, 0, 1, 0, 0, 1, 0, 0, 0, 0x16, 3];
    let pkt = encrypt_frame(&cipher, header, [1u8; 8], b"frame");
    assert_eq!(packet_source_id(&pkt), Some(0x1603));
    assert_eq!(packet_source_id(&pkt[..20]), None);

    let source = SourceFormat {
        id: 0x1603,
        sample_rate: 48_000,
        channels: 6,
        is_alac: false,
        bit_depth: None,
    };
    let mut receiver = BufferedReceiver::new(
        key,
        buffered_audio::OutputConfig {
            sample_rate: Some(44_100),
            max_channels: Some(2),
        },
    );
    assert!(receiver.on_packet(&pkt[..20], Some(source)).is_none());
    let packet = receiver.on_packet(&pkt, Some(source)).unwrap();
    assert_eq!(packet.timestamp, 256);
    assert_eq!(packet.plaintext.as_deref(), Some(&b"frame"[..]));
    let change = packet.change.expect("a new format");
    assert_eq!((change.source_rate, change.source_channels), (48_000, 6));
    assert_eq!((change.target_rate, change.target_channels), (44_100, 2));
    assert!(matches!(
        change.decoder,
        DecoderSetup::Aac { sample_rate: 48_000, channels: 6 }
    ));
    let mut s = fresh_state();
    set_format(&mut s, &change);
    assert!(s.format_changed);
    assert_eq!((s.sample_rate, s.channels), (44_100, 2));

    let mut broken = pkt.clone();
    broken[12] ^= 1;
    let packet = receiver.on_packet(&broken, Some(source)).unwrap();
    assert!(packet.change.is_none() && packet.plaintext.is_none());
    assert!(receiver.on_packet(&pkt, None).unwrap().change.is_none());
}

#[test]
fn decoders_are_set_up_for_their_sources() {
    let alac = SourceFormat {
        id: 1,
        sample_rate: 48_000,
        channels: 2,
        is_alac: true,
        bit_depth: None,
    };
    match make_decoder(&alac) {
        DecoderSetup::Alac { bit_depth, channels, info } => {
            assert_eq!((bit_depth, channels), (16, 2));
            assert_eq!(u32::from_be_bytes(info[24..28].try_into().unwrap()), 480);
            assert_eq!(info, buffered_audio::alac_decoder_info(48_000, 16, 2));
        }
        DecoderSetup::Aac { .. } => panic!("ALAC source"),
    }
    let info = buffered_audio::alac_decoder_info(44_100, 24, 2);
    assert_eq!(u32::from_be_bytes(info[24..28].try_into().unwrap()), 352);
    assert_eq!(info[29], 24);
}

#[test]
fn alac_decoder_info_uses_realtime_setup_values() {
    let info = alac_decoder_info(&OutputConfig {
        source_sample_rate: 48_000,
        samples_per_frame: 352,
        channels: 2,
        bit_depth: 16,
        sample_rate: None,
        max_channels: None,
    });

    assert_eq!(u32::from_be_bytes(info[24..28].try_into().unwrap()), 352);
    assert_eq!(info[29], 16);
    assert_eq!(info[30], 40);
    assert_eq!(info[31], 10);
    assert_eq!(info[32], 14);
    assert_eq!(info[33], 2);
    assert_eq!(u16::from_be_bytes(info[34..36].try_into().unwrap()), 255);
    assert_eq!(u32::from_be_bytes(info[44..48].try_into().unwrap()), 48_000);
}

#[test]
fn normalize_output_config_sanitizes_zero_values() {
    let cfg = normalize_output_config(&OutputConfig {
        source_sample_rate: 0,
        samples_per_frame: 0,
        channels: 0,
        bit_depth: 0,
        sample_rate: Some(0),
        max_channels: Some(0),
    });

    assert_eq!(
        cfg,
        OutputConfig {
            source_sample_rate: 44_100,
            samples_per_frame: 352,
            channels: 2,
            bit_depth: 16,
            sample_rate: None,
            max_channels: None,
        }
    );
    assert_eq!(normalize_output_config(&cfg), cfg);
}

#[test]
fn normalize_output_config_preserves_valid_values() {
    let original = OutputConfig {
        source_sample_rate: 48_000,
        samples_per_frame: 480,
        channels: 6,
        bit_depth: 24,
        sample_rate: Some(96_000),
        max_channels: Some(2),
    };

    let cfg = normalize_output_config(&original);
    assert_eq!(cfg, original);
}

#[test]
fn run_ignores_too_short_packets_without_initializing_session() {
    let mut receiver = RealtimeReceiver::new(
        [7u8; 32],
        &OutputConfig {
            source_sample_rate: 44_100,
            samples_per_frame: 352,
            channels: 2,
            bit_depth: 16,
            sample_rate: None,
            max_channels: None,
        },
    );
    let short = vec![0u8; RTP_HEADER_LEN + NONCE_TRAIL_LEN];
    assert!(receiver.on_packet(&short).is_none());
    assert!(!receiver.started);
}

#[test]
fn run_initializes_session_before_decrypt_with_expected_format() {
    let mut receiver = RealtimeReceiver::new(
        [9u8; 32],
        &OutputConfig {
            source_sample_rate: 48_000,
            samples_per_frame: 480,
            channels: 6,
            bit_depth: 24,
            sample_rate: Some(96_000),
            max_channels: Some(2),
        },
    );
    let invalid_packet = vec![0u8; RTP_HEADER_LEN + CHACHA_TAG_LEN + NONCE_TRAIL_LEN];
    let packet = receiver.on_packet(&invalid_packet).unwrap();
    assert!(packet.plaintext.is_none());
    let setup = packet.setup.expect("the session is made");
    assert_eq!(setup.format.codec, AudioCodec::Pcm);
    assert_eq!(setup.format.bits, 32);
    assert_eq!(setup.format.channels, 2);
    assert_eq!(setup.format.sample_rate, 96_000);
    assert_eq!(setup.resample, Some((48_000, 96_000)));
    assert_eq!((setup.bit_depth, setup.channels), (24, 6));
    assert_eq!(setup.decoder_info, alac_decoder_info(&receiver.config));
    assert!(receiver.on_packet(&invalid_packet).unwrap().setup.is_none());
}

#[test]
fn realtime_packets_are_decrypted() {
    let key = [5u8; 32];
    let cipher = ChaCha20Poly1305::new((&key).into());
    let header = [0x80, 0x60, 0, 1, 0, 0, 0, 2, 0, 0, 0, 3];
    let pkt = encrypt_frame(&cipher, header, [4u8; 8], b"alac");
    let mut receiver = RealtimeReceiver::new(
        key,
        &realtime_audio::OutputConfig {
            source_sample_rate: 0,
            samples_per_frame: 0,
            channels: 0,
            bit_depth: 0,
            sample_rate: None,
            max_channels: None,
        },
    );
    let packet = receiver.on_packet(&pkt).unwrap();
    assert_eq!(packet.plaintext.as_deref(), Some(&b"alac"[..]));
    let setup = packet.setup.unwrap();
    assert_eq!((setup.format.sample_rate, setup.format.channels), (44_100, 2));
    assert_eq!(setup.resample, None);
}

#[test]
fn access_units_behind_header_sections() {
    // One 16-bit header: 80 bits are 10 bytes.
    let mut p = vec![0x00, 0x10, 0x02, 0x80];
    p.extend(1u8..=12);
    let unit: Vec<u8> = (1u8..=10).collect();
    assert_eq!(extract_aac_access_unit(&p), Some(&unit[..]));
    // The unit must fit.
    assert_eq!(extract_aac_access_unit(&p[..13]), None);
    // 77 bits take 10 bytes too.
    p[2] = 0x02;
    p[3] = 0x68;
    assert_eq!(extract_aac_access_unit(&p), Some(&unit[..]));
    // A size of zero is none.
    p[2] = 0;
    p[3] = 7;
    assert_eq!(extract_aac_access_unit(&p), None);

    // An 8-bit header says no size: the rest is the unit, from 8 bytes on.
    let mut q = vec![0x00, 0x08, 0xff];
    q.extend(1u8..=8);
    assert_eq!(extract_aac_access_unit(&q), Some(&q[3..]));
    assert_eq!(extract_aac_access_unit(&q[..10]), None);
    // Not a whole number of bytes, too long, empty.
    q[1] = 9;
    assert_eq!(extract_aac_access_unit(&q), None);
    q[1] = 136;
    assert_eq!(extract_aac_access_unit(&q), None);
    q[1] = 0;
    assert_eq!(extract_aac_access_unit(&q), None);
    assert_eq!(extract_aac_access_unit(&[0, 16, 1]), None);
}

#[test]
fn access_units_behind_bare_headers() {
    let mut p = vec![0x02, 0x00];
    p.extend(1u8..=9);
    assert_eq!(extract_aac_access_unit_direct_header(&p), Some(&p[2..10]));
    p[1] = 0x08;
    assert_eq!(extract_aac_access_unit_direct_header(&p), Some(&p[2..11]));
    p[1] = 0x48;
    assert_eq!(extract_aac_access_unit_direct_header(&p), None);
    // Units below 8 bytes do not count.
    p[0] = 0x01;
    p[1] = 0xc0;
    assert_eq!(extract_aac_access_unit_direct_header(&p), None);
    assert_eq!(extract_aac_access_unit_direct_header(&[0, 7]), None);
}

#[test]
fn labels_name_their_offsets() {
    assert_eq!(aac_au_label_for_offset(0), "aac-au");
    assert_eq!(aac_au_label_for_offset(9), "aac-au+9");
    assert_eq!(aac_au_label_for_offset(16), "aac-au+16");
    assert_eq!(aac_au_label_for_offset(99), "aac-au+16");
    assert_eq!(aac_au_direct_label_for_offset(10), "aac-au-direct+10");
    assert_eq!(aac_raw_label_for_offset(0), "aac");
    assert_eq!(aac_raw_label_for_offset(31), "aac+31");
    assert_eq!(aac_raw_label_for_offset(usize::MAX), "aac+32");
}

#[test]
fn shifted_sections_and_selection() {
    let mut p = vec![0xaa, 0xbb, 0xcc];
    p.extend([0x00, 0x10, 0x02, 0x80]);
    p.extend(1u8..=10);
    let (unit, label) = extract_aac_access_unit_shifted(&p).unwrap();
    assert_eq!(unit, &p[7..17]);
    assert_eq!(label, "aac-au+3");
    assert_eq!(select_aac_payload(&p), (&p[7..17], "aac-au+3"));

    let adts = [0xff, 0xf1, 1, 2, 3, 4, 5, 6, 7];
    assert!(starts_with_adts_sync(&adts));
    assert!(!starts_with_adts_sync(&[0xff, 0xef]));
    assert!(!starts_with_adts_sync(&[0xff]));
    assert_eq!(select_aac_payload(&adts), (&adts[7..], "aac-adts"));

    let mut shifted = vec![9, 9, 9, 9];
    shifted.extend(adts);
    assert_eq!(select_aac_payload(&shifted), (&shifted[11..], "aac-adts+4"));

    let mut direct = vec![0x02, 0x00];
    direct.extend([0xffu8; 8]);
    assert_eq!(select_aac_payload(&direct), (&direct[2..10], "aac-au-direct"));

    let plain = [0xeeu8; 5];
    assert_eq!(select_aac_payload(&plain), (&plain[..], "aac"));
    assert!(extract_aac_access_unit_shifted(&plain).is_none());
}

#[test]
fn candidates_are_distinct_and_long_enough() {
    let payload = [0xeeu8; 20];
    let found = collect_aac_payload_candidates(&payload);
    let labels: Vec<&str> = found.iter().map(|(_, label)| *label).collect();
    let mut expected = vec!["aac".to_string()];
    expected.extend((1..12).map(|i| format!("aac+{i}")));
    assert_eq!(labels, expected);
    assert_eq!(found[11].0.len(), 9);

    let mut adts = vec![0xff, 0xf1, 0, 0, 0, 0, 0];
    adts.extend([1u8, 2, 3, 4, 5, 6, 7, 8, 9]);
    let found = collect_aac_payload_candidates(&adts);
    assert_eq!(found[0], (&adts[7..], "aac-adts"));
    assert_eq!(found.iter().filter(|(bytes, _)| *bytes == &adts[7..]).count(), 1);
    assert!(found.iter().all(|(bytes, _)| bytes.len() >= 8));
    assert!(collect_aac_payload_candidates(&[1u8; 7]).is_empty());
}

#[test]
fn probing_takes_the_loudest_candidate() {
    let payload: Vec<u8> = (100u8..120).collect();
    let found = collect_aac_payload_candidates(&payload);
    let loud = 0.5f32.to_bits();
    let louder = 0.75f32.to_bits();
    let trials = [
        DecodeTrial::Failed,
        DecodeTrial::Decoded { sample_count: 4, peak_bits: loud },
        DecodeTrial::Decoded { sample_count: 0, peak_bits: 0 },
        DecodeTrial::Decoded { sample_count: 4, peak_bits: louder },
        DecodeTrial::Decoded { sample_count: 4, peak_bits: louder },
    ];
    let outcome = probe_aac_candidates(&payload, &trials);
    assert_eq!(outcome.candidate_count, found.len());
    assert_eq!(outcome.decoded_count, 4);
    assert_eq!(outcome.non_silent_count, 3);
    assert_eq!(outcome.best_peak_bits, louder);
    let chosen = outcome.chosen.unwrap();
    assert_eq!(chosen.payload, found[3].0);
    assert_eq!(chosen.label, found[3].1);
    assert_eq!(chosen.payload_len, found[3].0.len());
    assert_eq!(chosen.prefix_hex, prefix_hex(found[3].0, 16));
    assert_eq!(chosen.peak_bits, louder);
}

#[test]
fn probing_prefers_sound_to_silence() {
    assert_eq!(SILENCE_PEAK_BITS, 1.0e-7f32.to_bits());
    let payload: Vec<u8> = (100u8..120).collect();
    let found = collect_aac_payload_candidates(&payload);
    let trials = [
        DecodeTrial::Decoded { sample_count: 1, peak_bits: 0 },
        DecodeTrial::Decoded { sample_count: 1, peak_bits: SILENCE_PEAK_BITS },
        DecodeTrial::Unavailable,
        DecodeTrial::Decoded { sample_count: 1, peak_bits: 0.5f32.to_bits() },
    ];
    let outcome = probe_aac_candidates(&payload, &trials);
    assert_eq!(outcome.decoded_count, 2);
    assert_eq!(outcome.non_silent_count, 0);
    assert_eq!(outcome.chosen.unwrap().payload, found[1].0);

    let none = probe_aac_candidates(&payload, &[DecodeTrial::Failed]);
    assert!(none.chosen.is_none());
    let settled = settle_aac_payload(&payload, none.chosen);
    assert_eq!(settled.label, "aac");
    assert_eq!(settled.payload, &payload[..]);
}

#[test]
fn frames_are_reported_as_they_were_decoded() {
    let plaintext: Vec<u8> = (0u8..40).collect();
    let plan = plan_alac(Some(7), &plaintext);
    assert_eq!(plan.payload, &plaintext[..]);
    assert_eq!(plan.report.decoder_kind, "alac");
    assert_eq!(plan.report.plaintext_nonzero_bytes, 39);
    assert_eq!(plan.report.plaintext_prefix_hex, "000102030405060708090a0b0c0d0e0f");
    assert_eq!(plan.report.aac_candidate_count, 0);

    let peak = 0.25f32.to_bits();
    let plan = plan_aac(
        Some(7),
        &plaintext,
        &[DecodeTrial::Failed, DecodeTrial::Decoded { sample_count: 9, peak_bits: peak }],
    );
    let found = collect_aac_payload_candidates(&plaintext);
    assert_eq!(plan.payload, found[1].0);
    assert_eq!(plan.report.decoder_kind, found[1].1);
    assert_eq!(plan.report.source, Some(7));
    assert_eq!(plan.report.plaintext_len, 40);
    assert_eq!(plan.report.selected_payload_len, found[1].0.len());
    assert_eq!(plan.report.aac_decoded_count, 1);
    assert_eq!(plan.report.aac_best_peak_bits, peak);
    assert_eq!(count_nonzero(&[0, 1, 0, 2]), 2);
    assert_eq!(prefix_hex(&[0xde, 0xad, 0xbe, 0xef], 2), "dead");
    assert_eq!(prefix_hex(&[], 16), "");
}

#[test]
fn a_due_frame_stays_due() {
    for later in [0u64, 1, 1_000_000, 3_600_000_000_000] {
        let mut s = fresh_state();
        s.rate = 1;
        s.anchor_rtp = u32::MAX;
        s.anchor_local_ns = 0;
        enqueue(&mut s, 9, vec![]);
        // Ten frames at 44.1 kHz take a bit more than 226 microseconds.
        let round = delivery_step(&mut s, true, 226_758 + later).unwrap();
        assert_eq!(round.frames.len(), 1);
    }
    let mut s = fresh_state();
    s.rate = 1;
    s.anchor_rtp = u32::MAX;
    enqueue(&mut s, 9, vec![]);
    assert!(delivery_step(&mut s, true, 226_757).unwrap().frames.is_empty());
}

#[test]
fn candidates_stand_in_their_payload() {
    let mut payload = vec![0xff, 0xf9, 0x00, 0x10, 0x02, 0x80];
    payload.extend((0u8..40).map(|i| i.wrapping_mul(7)));
    let found = collect_aac_payload_candidates(&payload);
    assert!(found.iter().any(|(bytes, _)| *bytes == &payload[..]));
    for (bytes, _) in &found {
        assert!(payload.windows(bytes.len()).any(|w| w == *bytes));
    }
}
