use shairplay::proto::dmap::TrackMetadata;
use shairplay::proto::sdp::Sdp;

const DMAP_FULL: &[u8] = &[
    0x6d, 0x6c, 0x69, 0x74, 0x00, 0x00, 0x00, 0x57, 0x6d, 0x69, 0x6b, 0x64, 0x00, 0x00, 0x00, 0x01,
    0x02, 0x6d, 0x69, 0x6e, 0x6d, 0x00, 0x00, 0x00, 0x11, 0x42, 0x6f, 0x68, 0x65, 0x6d, 0x69, 0x61,
    0x6e, 0x20, 0x52, 0x68, 0x61, 0x70, 0x73, 0x6f, 0x64, 0x79, 0x61, 0x73, 0x61, 0x72, 0x00, 0x00,
    0x00, 0x05, 0x51, 0x75, 0x65, 0x65, 0x6e, 0x61, 0x73, 0x61, 0x6c, 0x00, 0x00, 0x00, 0x14, 0x41,
    0x20, 0x4e, 0x69, 0x67, 0x68, 0x74, 0x20, 0x61, 0x74, 0x20, 0x74, 0x68, 0x65, 0x20, 0x4f, 0x70,
    0x65, 0x72, 0x61, 0x61, 0x73, 0x67, 0x6e, 0x00, 0x00, 0x00, 0x04, 0x52, 0x6f, 0x63, 0x6b,
];

#[test]
fn dmap_parse_full() {
    let meta = TrackMetadata::from_dmap(DMAP_FULL);
    assert_eq!(meta.title.as_deref(), Some("Bohemian Rhapsody"));
    assert_eq!(meta.artist.as_deref(), Some("Queen"));
    assert_eq!(meta.album.as_deref(), Some("A Night at the Opera"));
    assert_eq!(meta.genre.as_deref(), Some("Rock"));
}

#[test]
fn dmap_parse_title_only() {
    let data: &[u8] = &[
        0x6d, 0x6c, 0x69, 0x74, 0x00, 0x00, 0x00, 0x0d, 0x6d, 0x69, 0x6e, 0x6d, 0x00, 0x00, 0x00,
        0x05, 0x48, 0x65, 0x6c, 0x6c, 0x6f,
    ];
    let meta = TrackMetadata::from_dmap(data);
    assert_eq!(meta.title.as_deref(), Some("Hello"));
    assert_eq!(meta.artist, None);
}

#[test]
fn dmap_parse_empty() {
    let meta = TrackMetadata::from_dmap(&[]);
    assert_eq!(meta.title, None);
}

#[test]
fn dmap_parse_truncated() {
    let meta = TrackMetadata::from_dmap(&DMAP_FULL[..8]);
    assert_eq!(meta.title, None);
}

#[test]
fn dmap_parse_corrupt_length() {
    let data: &[u8] = &[
        0x6d, 0x6c, 0x69, 0x74, 0x00, 0x00, 0x00, 0x0d, 0x6d, 0x69, 0x6e, 0x6d, 0x00, 0x00, 0xff,
        0xff, 0x48, 0x65, 0x6c, 0x6c, 0x6f,
    ];
    let meta = TrackMetadata::from_dmap(data);
    assert_eq!(meta.title, None);
}

#[test]
fn dmap_rejects_non_mlit_root() {
    let data: &[u8] = &[
        0x6e, 0x6f, 0x70, 0x65, 0x00, 0x00, 0x00, 0x0d, 0x6d, 0x69, 0x6e, 0x6d, 0x00, 0x00, 0x00,
        0x05, 0x48, 0x65, 0x6c, 0x6c, 0x6f,
    ];
    let meta = TrackMetadata::from_dmap(data);
    assert_eq!(meta.title, None);
}

#[test]
fn dmap_respects_declared_outer_length() {
    let data: &[u8] = &[
        0x6d, 0x6c, 0x69, 0x74, 0x00, 0x00, 0x00, 0x0d, 0x6d, 0x69, 0x6e, 0x6d, 0x00, 0x00, 0x00,
        0x05, 0x48, 0x65, 0x6c, 0x6c, 0x6f, 0x6d, 0x69, 0x6e, 0x6d, 0x00, 0x00, 0x00, 0x05, 0x57,
        0x6f, 0x72, 0x6c, 0x64,
    ];
    let meta = TrackMetadata::from_dmap(data);
    assert_eq!(meta.title.as_deref(), Some("Hello"));
}

#[test]
fn dmap_malformed_duplicate_does_not_clear_prior_value() {
    let data: &[u8] = &[
        0x6d, 0x6c, 0x69, 0x74, 0x00, 0x00, 0x00, 0x17, 0x61, 0x73, 0x74, 0x6d, 0x00, 0x00, 0x00,
        0x04, 0x00, 0x00, 0x03, 0xE8, 0x61, 0x73, 0x74, 0x6d, 0x00, 0x00, 0x00, 0x03, 0x01, 0x02,
        0x03,
    ];
    let meta = TrackMetadata::from_dmap(data);
    assert_eq!(meta.duration_ms, Some(1000));
}

fn item(tag: &[u8; 4], value: &[u8]) -> Vec<u8> {
    let mut out = tag.to_vec();
    out.extend_from_slice(&(value.len() as u32).to_be_bytes());
    out.extend_from_slice(value);
    out
}

#[test]
fn dmap_numbers_and_malformed_text() {
    let mut body = Vec::new();
    body.extend(item(b"astn", &[0x00, 0x07]));
    body.extend(item(b"asdk", &[0x01, 0x02]));
    body.extend(item(b"astm", &[0x00, 0x03, 0xd0, 0x90]));
    body.extend(item(b"minm", "Größe".as_bytes()));
    body.extend(item(b"minm", &[0xff, 0xfe]));
    body.extend(item(b"asar", b"one"));
    body.extend(item(b"asar", b"two"));
    let meta = TrackMetadata::from_dmap(&item(b"mlit", &body));
    assert_eq!(meta.track_number, Some(7));
    assert_eq!(meta.disc_number, Some(258));
    assert_eq!(meta.duration_ms, Some(250_000));
    assert_eq!(meta.title.as_deref(), Some("Größe"));
    assert_eq!(meta.artist.as_deref(), Some("two"));
    assert_eq!(meta.album, None);
    assert!(TrackMetadata::default().genre.is_none());
}

#[test]
fn dmap_takes_what_a_truncated_listing_holds() {
    let mut body = Vec::new();
    body.extend(item(b"minm", b"kept"));
    body.extend(item(b"asar", b"cut off"));
    let whole = item(b"mlit", &body);
    let meta = TrackMetadata::from_dmap(&whole[..whole.len() - 1]);
    assert_eq!(meta.title.as_deref(), Some("kept"));
    assert_eq!(meta.artist, None);
}

#[test]
fn parses_core_fields_with_whitespace_and_crlf() {
    let sdp = Sdp::parse(
        "\r\n  v=0\r\n  c=IN IP4 192.168.1.2\r\n  a=rtpmap: 96 AppleLossless \r\n  a=fmtp: 96 4096 0 16 40 10 14 2 255 0 0 44100\r\n",
    );
    assert_eq!(sdp.version(), Some("0"));
    assert_eq!(sdp.connection(), Some("IN IP4 192.168.1.2"));
    assert_eq!(sdp.rtpmap(), Some("96 AppleLossless"));
    assert_eq!(sdp.fmtp(), Some("96 4096 0 16 40 10 14 2 255 0 0 44100"));
}

#[test]
fn duplicate_sensitive_fields_use_first_value() {
    let sdp = Sdp::parse(
        "a=rsaaeskey:first\n\
         a=rsaaeskey:second\n\
         a=fpaeskey:fp-first\n\
         a=fpaeskey:fp-second\n\
         a=aesiv:iv-first\n\
         a=aesiv:iv-second\n\
         a=min-latency:11025\n\
         a=min-latency:22050\n",
    );
    assert_eq!(sdp.rsaaeskey(), Some("first"));
    assert_eq!(sdp.fpaeskey(), Some("fp-first"));
    assert_eq!(sdp.aesiv(), Some("iv-first"));
    assert_eq!(sdp.min_latency(), Some("11025"));
}

#[test]
fn empty_attribute_values_are_ignored() {
    let sdp = Sdp::parse("a=rsaaeskey:\na=fpaeskey:   \na=aesiv:\na=min-latency:\n");
    assert_eq!(sdp.rsaaeskey(), None);
    assert_eq!(sdp.fpaeskey(), None);
    assert_eq!(sdp.aesiv(), None);
    assert_eq!(sdp.min_latency(), None);
}

#[test]
fn sdp_reads_around_empty_and_foreign_lines() {
    let sdp = Sdp::parse(
        "é=1\nx\n\u{a0}v=\u{2003}\nv = 3\na=noise\na=rtpmap:\na = fmtp:1\n a=aesiv : a:b \u{3000}\nv=9\nc=",
    );
    assert_eq!(sdp.version(), Some("9"));
    assert_eq!(sdp.connection(), None);
    assert_eq!(sdp.rtpmap(), None);
    assert_eq!(sdp.fmtp(), None);
    assert_eq!(sdp.aesiv(), Some("a:b"));
}
