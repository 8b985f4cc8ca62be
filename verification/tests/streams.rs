use bytes::Bytes;
use shairplay::crypto::video_cipher::VideoCipher;
use shairplay::net::{IpAddress, SocketAddress};
use shairplay::raop::handlers_hls::{
    play_request, play_request_of, playback_info, query_value, server_info, PlaybackTimes,
    PLIST_CONTENT_TYPE,
};
use shairplay::raop::hls::{HlsSession, HlsState};
use shairplay::raop::plist_binary::SHARED_VALUES;
use shairplay::raop::plist_limits::{fits, MAX_PLIST_DEPTH};
use shairplay::raop::video::{PacketKind, VideoHandler, VideoPacket, VideoSession};
use shairplay::raop::video_stream::{
    classify_packet, parse_header, peer_ip_matches, HeaderAction, VideoReceiver,
    MAX_VIDEO_PAYLOAD_LEN, VIDEO_HEADER_LEN,
};
use std::sync::atomic::{AtomicUsize, Ordering};
use std::sync::{Arc, Mutex};

struct NonSyncSession {
    seen: std::cell::Cell<u32>,
}

impl VideoSession for NonSyncSession {
    fn on_video(&mut self, _packet: VideoPacket) {
        self.seen.set(self.seen.get().saturating_add(1));
    }
}

fn assert_send<T: Send>() {}

#[test]
fn video_session_can_be_send_without_sync() {
    assert_send::<NonSyncSession>();
}

struct CountingSession {
    seen: Arc<AtomicUsize>,
    ended: Arc<AtomicUsize>,
}

impl VideoSession for CountingSession {
    fn on_video(&mut self, _packet: VideoPacket) {
        self.seen.fetch_add(1, Ordering::SeqCst);
    }

    fn on_video_end(&mut self) {
        self.ended.fetch_add(1, Ordering::SeqCst);
    }
}

struct CountingHandler {
    seen: Arc<AtomicUsize>,
    ended: Arc<AtomicUsize>,
}

impl VideoHandler for CountingHandler {
    type Session = CountingSession;

    fn video_init(&self) -> CountingSession {
        CountingSession {
            seen: Arc::clone(&self.seen),
            ended: Arc::clone(&self.ended),
        }
    }
}

#[test]
fn video_handler_creates_session_that_receives_packets() {
    let seen = Arc::new(AtomicUsize::new(0));
    let ended = Arc::new(AtomicUsize::new(0));
    let handler = CountingHandler {
        seen: Arc::clone(&seen),
        ended: Arc::clone(&ended),
    };

    let mut session = handler.video_init();
    session.on_video(VideoPacket {
        kind: PacketKind::Payload,
        timestamp: 123,
        payload: Bytes::from_static(b"hello"),
    });
    session.on_video_end();

    assert_eq!(seen.load(Ordering::SeqCst), 1);
    assert_eq!(ended.load(Ordering::SeqCst), 1);
}

#[test]
fn video_packet_fields_are_preserved() {
    let packet = VideoPacket {
        kind: PacketKind::HvcC,
        timestamp: 0x0102_0304_0506_0708,
        payload: Bytes::from_static(b"hvcc"),
    };

    assert_eq!(packet.kind, PacketKind::HvcC);
    assert_eq!(packet.timestamp, 0x0102_0304_0506_0708);
    assert_eq!(packet.payload.as_ref(), b"hvcc");
}

#[test]
fn parses_little_endian_header_fields() {
    let mut header = [0u8; VIDEO_HEADER_LEN];
    header[..4].copy_from_slice(&0x1234_u32.to_le_bytes());
    header[4..6].copy_from_slice(&0x5678_u16.to_le_bytes());
    header[8..16].copy_from_slice(&0x0102_0304_0506_0708_u64.to_le_bytes());

    let parsed = parse_header(&header);
    assert_eq!(parsed.payload_len, 0x1234);
    assert_eq!(parsed.packet_type, 0x5678);
    assert_eq!(parsed.timestamp, 0x0102_0304_0506_0708);
}

#[test]
fn classifies_supported_packet_types() {
    assert_eq!(classify_packet(1, b"....hvc1"), PacketKind::HvcC);
    assert_eq!(classify_packet(1, b"short"), PacketKind::AvcC);
    assert_eq!(classify_packet(0, b""), PacketKind::Payload);
    assert_eq!(classify_packet(4096, b""), PacketKind::Payload);
    assert_eq!(classify_packet(5, b""), PacketKind::Plist);
    assert_eq!(classify_packet(42, b""), PacketKind::Other(42));
    assert_eq!(classify_packet(1, b"....hvc2"), PacketKind::AvcC);
}

#[test]
fn peer_ip_matches_accepts_same_ip() {
    let expected = IpAddress::V4([192, 168, 1, 10]);
    let actual = SocketAddress {
        ip: IpAddress::V4([192, 168, 1, 10]),
        port: 7000,
    };
    assert!(peer_ip_matches(&expected, &actual));
}

#[test]
fn peer_ip_matches_rejects_different_ip() {
    let expected = IpAddress::V4([192, 168, 1, 10]);
    let actual = SocketAddress {
        ip: IpAddress::V4([192, 168, 1, 11]),
        port: 7000,
    };
    assert!(!peer_ip_matches(&expected, &actual));
    let mapped = SocketAddress {
        ip: IpAddress::V6([0, 0, 0, 0, 0, 0, 0, 0, 0, 0, 0xff, 0xff, 192, 168, 1, 10]),
        port: 7000,
    };
    assert!(!peer_ip_matches(&expected, &mapped));
}

fn make_header(payload_len: u32, packet_type: u16, timestamp: u64) -> [u8; VIDEO_HEADER_LEN] {
    let mut header = [0u8; VIDEO_HEADER_LEN];
    header[..4].copy_from_slice(&payload_len.to_le_bytes());
    header[4..6].copy_from_slice(&packet_type.to_le_bytes());
    header[8..16].copy_from_slice(&timestamp.to_le_bytes());
    header
}

#[test]
fn process_decrypts_payload_skips_empty_and_ends_on_oversized_payload() {
    let (key, iv) = ([0x11u8; 16], [0x22u8; 16]);
    let mut receiver = VideoReceiver::new(VideoCipher::new(&key, &iv));

    assert!(matches!(
        receiver.on_header(&make_header(0, 0, 1)),
        HeaderAction::Skip
    ));

    let plaintext = b"video payload".to_vec();
    let mut encrypted = plaintext.clone();
    let mut sender_cipher = VideoCipher::new(&key, &iv);
    sender_cipher.decrypt(&mut encrypted);
    let header = match receiver.on_header(&make_header(encrypted.len() as u32, 0, 2)) {
        HeaderAction::ReadPayload(header) => header,
        other => panic!("payload expected: {other:?}"),
    };
    assert_eq!(header.payload_len, plaintext.len());
    let packet = receiver.on_payload(&header, encrypted);
    assert_eq!(packet.kind, PacketKind::Payload);
    assert_eq!(packet.timestamp, 2);
    assert_eq!(packet.payload.as_ref(), &plaintext[..]);

    assert!(matches!(
        receiver.on_header(&make_header((MAX_VIDEO_PAYLOAD_LEN as u32) + 1, 0, 3)),
        HeaderAction::End
    ));
    assert!(matches!(
        receiver.on_header(&make_header(MAX_VIDEO_PAYLOAD_LEN as u32, 0, 3)),
        HeaderAction::ReadPayload(_)
    ));
}

#[test]
fn run_accepts_expected_peer_and_processes_stream() {
    let expected = IpAddress::V4([127, 0, 0, 1]);
    let peer = |octets: [u8; 4]| SocketAddress { ip: IpAddress::V4(octets), port: 50_000 };
    assert!(peer_ip_matches(&expected, &peer([127, 0, 0, 1])));
    assert!(!peer_ip_matches(&expected, &peer([127, 0, 0, 2])));

    let (key, iv) = ([0x33u8; 16], [0x44u8; 16]);
    let mut receiver = VideoReceiver::new(VideoCipher::new(&key, &iv));
    let mut sender = VideoCipher::new(&key, &iv);
    let mut first = b"abc123".to_vec();
    let mut second = b"more video".to_vec();
    sender.decrypt(&mut first);
    sender.decrypt(&mut second);

    let header = parse_header(&make_header(6, 0, 99));
    let packet = receiver.on_payload(&header, first);
    assert_eq!(packet.payload.as_ref(), b"abc123");
    assert_eq!(packet.timestamp, 99);

    // Configuration is not encrypted and does not move the cipher on.
    let header = parse_header(&make_header(8, 1, 100));
    let packet = receiver.on_payload(&header, b"....hvc1".to_vec());
    assert_eq!(packet.kind, PacketKind::HvcC);
    assert_eq!(packet.payload.as_ref(), b"....hvc1");

    let header = parse_header(&make_header(10, 4096, 101));
    assert_eq!(receiver.on_payload(&header, second).payload.as_ref(), b"more video");
}

fn parse_query_float(url: &str, key: &str) -> Option<f32> {
    let parsed = query_value(url, key)?.parse::<f32>().ok()?;
    if parsed.is_finite() {
        Some(parsed)
    } else {
        None
    }
}

#[test]
fn parse_query_float_basic() {
    assert_eq!(
        parse_query_float("/scrub?position=12.5", "position"),
        Some(12.5)
    );
    assert_eq!(parse_query_float("/rate?value=1.0", "value"), Some(1.0));
    assert_eq!(parse_query_float("/rate?value=0.0", "value"), Some(0.0));
}

#[test]
fn parse_query_float_missing() {
    assert_eq!(parse_query_float("/scrub", "position"), None);
    assert_eq!(parse_query_float("/scrub?other=1", "position"), None);
}

#[test]
fn parse_query_float_multiple_params() {
    assert_eq!(
        parse_query_float("/x?a=1&position=2.75&b=2", "position"),
        Some(2.75)
    );
}

#[test]
fn parse_query_float_invalid() {
    assert_eq!(parse_query_float("/scrub?position=abc", "position"), None);
    assert_eq!(parse_query_float("/scrub?position=", "position"), None);
}

#[test]
fn parse_query_float_rejects_non_finite() {
    assert_eq!(parse_query_float("/rate?value=NaN", "value"), None);
    assert_eq!(parse_query_float("/rate?value=inf", "value"), None);
    assert_eq!(parse_query_float("/rate?value=-inf", "value"), None);
}

#[test]
fn parse_query_float_requires_exact_key_match() {
    assert_eq!(
        parse_query_float("/scrub?positionMs=1.5&position=2.0", "position"),
        Some(2.0)
    );
}

#[test]
fn query_values_are_the_first_with_their_key() {
    assert_eq!(query_value("/x?k=1&k=2", "k").as_deref(), Some("1"));
    assert_eq!(query_value("/x?k=a=b", "k").as_deref(), Some("a=b"));
    assert_eq!(query_value("/x?k&k=2", "k").as_deref(), Some("2"));
    assert_eq!(query_value("/x?k=1?k=2", "k").as_deref(), Some("1"));
    assert_eq!(query_value("/x?a=1?k=2", "k"), None);
    assert_eq!(query_value("/x?=7", "").as_deref(), Some("7"));
}

#[test]
fn server_info_returns_plist_and_content_type() {
    let body = server_info(
        &[0x10, 0x20, 0x30, 0x40, 0x50, 0x60],
        "AppleTV3,2",
        "366.0",
    )
    .expect("server-info body");
    let text = String::from_utf8(body.clone()).expect("plist must be utf8 xml");

    assert!(
        text.contains("<key>macAddress</key>") && text.contains("10:20:30:40:50:60"),
        "plist should include MAC address"
    );
    assert!(text.contains("<key>srcvers</key>"));
    assert_eq!(PLIST_CONTENT_TYPE, "text/x-apple-plist+xml");

    let value: plist::Value = plist::from_bytes(&body).unwrap();
    let dict = value.as_dictionary().unwrap();
    let keys: Vec<&str> = dict.keys().map(|k| k.as_str()).collect();
    assert_eq!(
        keys,
        vec![
            "features",
            "macAddress",
            "model",
            "osBuildVersion",
            "protovers",
            "srcvers",
            "vv",
            "deviceid"
        ]
    );
    assert_eq!(dict.get("features").and_then(|v| v.as_signed_integer()), Some(0x27F));
    assert_eq!(dict.get("vv").and_then(|v| v.as_signed_integer()), Some(2));
    assert_eq!(dict.get("model").and_then(|v| v.as_string()), Some("AppleTV3,2"));
    assert_eq!(dict.get("deviceid").and_then(|v| v.as_string()), Some("10:20:30:40:50:60"));
    let odd = server_info(&[0xab, 0x0c], "m", "s").unwrap();
    assert!(String::from_utf8(odd).unwrap().contains("<string>AB:0C</string>"));
}

#[derive(Debug, Clone, PartialEq, Default)]
struct PlaybackState {
    duration: f32,
    position: f32,
    rate: f32,
    ready: bool,
    stop_calls: usize,
}

struct MockHlsSession {
    state: Arc<Mutex<PlaybackState>>,
}

impl HlsSession for MockHlsSession {
    fn stop(&mut self) {
        self.state.lock().unwrap().stop_calls += 1;
    }
}

fn play_body(entries: Vec<(&str, plist::Value)>) -> Vec<u8> {
    let dict: plist::Dictionary = entries.into_iter().collect();
    let mut body = Vec::new();
    plist::to_writer_xml(&mut body, &plist::Value::Dictionary(dict)).unwrap();
    body
}

#[test]
fn play_installs_session_and_tracks_session_id() {
    let body = play_body(vec![
        (
            "Content-Location",
            plist::Value::String("https://example.com/live.m3u8".into()),
        ),
        ("Start-Position", plist::Value::Real(2.5)),
    ]);
    let request = play_request(&body).expect("a play request");
    assert_eq!(request.url, "https://example.com/live.m3u8");
    let start = request.start_position.and_then(|v| v.as_real()).unwrap_or(0.0) as f32;
    assert_eq!(start, 2.5);

    let player = Arc::new(Mutex::new(PlaybackState {
        duration: 100.0,
        position: 1.25,
        rate: 1.0,
        ready: true,
        stop_calls: 0,
    }));
    let mut state = HlsState::new();
    let session = MockHlsSession { state: player.clone() };
    assert!(state.replace_session(session, Some("sess-42".into())).is_none());
    assert!(state.session.is_some());
    assert_eq!(state.session_id.as_deref(), Some("sess-42"));
    assert_eq!(player.lock().unwrap().stop_calls, 0);
}

#[test]
fn play_requests_need_an_address() {
    assert!(play_request(b"no property list").is_none());
    assert!(play_request(&play_body(vec![("Start-Position", plist::Value::Real(1.0))])).is_none());
    assert!(play_request(&play_body(vec![(
        "Content-Location",
        plist::Value::Integer(3.into())
    )]))
    .is_none());
    assert!(play_request_of(&plist::Value::String("Content-Location".into())).is_none());
    let request = play_request(&play_body(vec![
        ("Content-Location", plist::Value::String("u".into())),
        ("Start-Position", plist::Value::Integer(7.into())),
    ]))
    .unwrap();
    assert!(request.start_position.is_none());
}

#[test]
fn playback_info_scrub_rate_and_stop_follow_session_state() {
    let player = Arc::new(Mutex::new(PlaybackState {
        duration: 120.0,
        position: 10.0,
        rate: 1.0,
        ready: false,
        stop_calls: 0,
    }));
    let mut state = HlsState::new();
    let session = MockHlsSession { state: player.clone() };
    assert!(state.replace_session(session, Some("demo".into())).is_none());

    let shown = player.lock().unwrap().clone();
    let times = PlaybackTimes {
        duration: plist::Value::Real(shown.duration as f64),
        position: plist::Value::Real(shown.position as f64),
        rate: plist::Value::Real(shown.rate as f64),
        remaining: plist::Value::Real((shown.duration - shown.position) as f64),
        start: plist::Value::Real(0.0),
    };
    let info_body = playback_info(&times, shown.ready).expect("playback-info should return body");
    let plist: plist::Value = plist::from_bytes(&info_body).expect("valid plist xml");
    let dict = plist.as_dictionary().expect("plist dictionary");

    assert_eq!(dict.get("duration").and_then(|v| v.as_real()), Some(120.0));
    assert_eq!(dict.get("position").and_then(|v| v.as_real()), Some(10.0));
    assert_eq!(dict.get("rate").and_then(|v| v.as_real()), Some(1.0));
    assert_eq!(
        dict.get("readyToPlay")
            .and_then(|v| v.as_signed_integer()),
        Some(0)
    );
    assert_eq!(dict.get("playbackBufferFull").and_then(|v| v.as_signed_integer()), Some(1));
    let loaded = dict.get("loadedTimeRanges").and_then(|v| v.as_array()).unwrap();
    assert_eq!(loaded.len(), 1);
    let range = loaded[0].as_dictionary().unwrap();
    assert_eq!(range.get("start").and_then(|v| v.as_real()), Some(10.0));
    assert_eq!(range.get("duration").and_then(|v| v.as_real()), Some(110.0));
    let seekable = dict.get("seekableTimeRanges").and_then(|v| v.as_array()).unwrap();
    let range = seekable[0].as_dictionary().unwrap();
    assert_eq!(range.get("start").and_then(|v| v.as_real()), Some(0.0));
    assert_eq!(range.get("duration").and_then(|v| v.as_real()), Some(120.0));

    let ready = playback_info(&times, true).unwrap();
    let plist: plist::Value = plist::from_bytes(&ready).unwrap();
    assert_eq!(
        plist.as_dictionary().unwrap().get("readyToPlay").and_then(|v| v.as_signed_integer()),
        Some(1)
    );

    let playing = state.session.as_mut().expect("a session");
    if let Some(position) = parse_query_float("/scrub?position=33.5", "position") {
        playing.state.lock().unwrap().position = position;
    }
    if let Some(rate) = parse_query_float("/rate?value=0.0", "value") {
        playing.state.lock().unwrap().rate = rate;
    }
    let current = player.lock().unwrap().clone();
    assert_eq!(current.position, 33.5);
    assert_eq!(current.rate, 0.0);
    assert_eq!(current.stop_calls, 0);

    assert!(state.clear_session().is_some());
    assert_eq!(player.lock().unwrap().stop_calls, 1);
    assert!(state.session.is_none());
    assert!(state.session_id.is_none());

    let odd = PlaybackTimes {
        duration: plist::Value::Integer(1.into()),
        ..times
    };
    assert!(playback_info(&odd, true).is_none());
}

struct MockSession {
    pos: f32,
    rate: f32,
    stopped: bool,
    stop_count: Arc<AtomicUsize>,
}

impl HlsSession for MockSession {
    fn stop(&mut self) {
        self.stopped = true;
        self.rate = 0.0;
        self.stop_count.fetch_add(1, Ordering::Relaxed);
    }
}

fn mock_session(stop_count: Arc<AtomicUsize>) -> MockSession {
    MockSession { pos: 0.0, rate: 1.0, stopped: false, stop_count }
}

#[test]
fn hls_state_lifecycle() {
    let mut s = HlsState::new();
    let stop_count = Arc::new(AtomicUsize::new(0));
    assert!(s.session.is_none());

    let before = s.replace_session(mock_session(stop_count.clone()), Some("test-123".into()));
    assert!(before.is_none());
    assert_eq!(s.session.as_ref().unwrap().rate, 1.0);

    s.session.as_mut().unwrap().pos = 60.0;
    assert_eq!(s.session.as_ref().unwrap().pos, 60.0);

    let stopped = s.clear_session().expect("the session comes back");
    assert!(stopped.stopped);
    assert_eq!(stopped.rate, 0.0);
    assert!(s.session.is_none());
    assert_eq!(s.session_id, None);
    assert_eq!(stop_count.load(Ordering::Relaxed), 1);
    assert!(s.clear_session().is_none());
    assert_eq!(stop_count.load(Ordering::Relaxed), 1);
}

#[test]
fn replace_session_stops_previous() {
    let mut s = HlsState::new();
    let stop_count = Arc::new(AtomicUsize::new(0));
    s.replace_session(mock_session(stop_count.clone()), Some("first".into()));
    assert_eq!(stop_count.load(Ordering::Relaxed), 0);
    s.replace_session(mock_session(stop_count.clone()), Some("second".into()));
    assert_eq!(s.session_id.as_deref(), Some("second"));
    assert!(!s.session.as_ref().unwrap().stopped);
    assert_eq!(stop_count.load(Ordering::Relaxed), 1);
}

#[test]
fn sessions_are_stopped_in_the_order_they_came() {
    let counts: Vec<Arc<AtomicUsize>> = (0..4).map(|_| Arc::new(AtomicUsize::new(0))).collect();
    let seen = || counts.iter().map(|c| c.load(Ordering::Relaxed)).collect::<Vec<_>>();
    let mut s = HlsState::new();
    s.replace_session(mock_session(counts[0].clone()), None);
    s.replace_session(mock_session(counts[1].clone()), None);
    assert_eq!(seen(), vec![1, 0, 0, 0]);
    s.clear_session();
    s.clear_session();
    assert_eq!(seen(), vec![1, 1, 0, 0]);
    s.replace_session(mock_session(counts[2].clone()), None);
    s.replace_session(mock_session(counts[3].clone()), None);
    assert_eq!(seen(), vec![1, 1, 1, 0]);
}

const ADDRESS: &str = "<key>Content-Location</key><string>u</string>";

/// An XML list that says an address, with more entries behind it.
fn xml_play(entries: &str) -> Vec<u8> {
    format!("<plist><dict>{ADDRESS}{entries}</dict></plist>").into_bytes()
}

fn plays(body: &[u8]) -> bool {
    match play_request(body) {
        Some(request) => {
            assert_eq!(request.url, "u");
            true
        }
        None => false,
    }
}

fn refused(body: &[u8]) -> bool {
    !fits(body, true) && play_request(body).is_none()
}

/// A binary list: the objects, their table and the trailer, with two-byte offsets and references.
fn objects(list: &[Vec<u8>]) -> Vec<u8> {
    let mut bytes = b"bplist00".to_vec();
    let mut offsets: Vec<u16> = Vec::new();
    for object in list {
        offsets.push(bytes.len() as u16);
        bytes.extend_from_slice(object);
    }
    let table = bytes.len() as u64;
    for offset in &offsets {
        bytes.extend_from_slice(&offset.to_be_bytes());
    }
    bytes.extend_from_slice(&[0, 0, 0, 0, 0, 0, 2, 2]);
    for n in [list.len() as u64, 0, table] {
        bytes.extend_from_slice(&n.to_be_bytes());
    }
    bytes
}

fn container(token: u8, refs: &[u16]) -> Vec<u8> {
    let mut object = vec![token];
    for r in refs {
        object.extend_from_slice(&r.to_be_bytes());
    }
    object
}

/// A binary list that says an address. Its other entry is the fifth object.
fn binary_play(others: &[Vec<u8>]) -> Vec<u8> {
    let mut list = vec![
        container(0xd2, &[1, 3, 2, 4]),
        b"\x5f\x10\x10Content-Location".to_vec(),
        b"\x51u".to_vec(),
        b"\x51d".to_vec(),
    ];
    list.extend_from_slice(others);
    objects(&list)
}

#[test]
fn nesting_is_read_up_to_the_stack() {
    // The dictionary itself is the outermost level.
    let most = MAX_PLIST_DEPTH as usize - 1;
    let xml = |n: usize| {
        let half = n / 2;
        let arrays = n - half;
        let open = format!("{}{}", "<dict><key>k</key>".repeat(half), "<array>".repeat(arrays));
        let close = format!("{}{}", "</array>".repeat(arrays), "</dict>".repeat(half));
        xml_play(&format!("<key>d</key>{open}<true/>{close}"))
    };
    assert!(plays(&xml(most)));
    assert!(refused(&xml(most + 1)));
    // An array that is closed at once is a level too.
    let flat = |n: usize| {
        let text = format!("<key>d</key>{}<array/>{}", "<array>".repeat(n), "</array>".repeat(n));
        xml_play(&text)
    };
    assert!(plays(&flat(most - 1)));
    assert!(refused(&flat(most)));

    let ascii = |n: usize| {
        let open = "{ k = ".repeat(n);
        let close = "; }".repeat(n);
        format!("{{ \"Content-Location\" = u; d = {open}v {close}; }}").into_bytes()
    };
    assert!(plays(&ascii(most)));
    assert!(refused(&ascii(most + 1)));

    let binary = |n: usize| {
        let mut others: Vec<Vec<u8>> =
            (0..n).map(|i| container(0xd1, &[3, 5 + i as u16])).collect();
        others.push(vec![0x10, 7]);
        binary_play(&others)
    };
    assert!(plays(&binary(most)));
    assert!(refused(&binary(most + 1)));
}

#[test]
fn wide_lists_are_read() {
    assert!(plays(&xml_play(&format!(
        "<key>d</key><array>{}{}</array>",
        "<dict></dict>".repeat(3000),
        "<array/>".repeat(3000)
    ))));
    let brackets = "(".repeat(3000) + &"{".repeat(3000);
    assert!(plays(&xml_play(&format!("<key>d</key><string>{brackets}</string>"))));
    assert!(plays(
        format!("{{ \"Content-Location\" = u; d = \"{brackets}\\\"{brackets}\"; }}").as_bytes()
    ));
    assert!(plays(
        format!("/* {brackets} */ {{ \"Content-Location\" = u; // {brackets}\n d = a{brackets} ; }}")
            .as_bytes()
    ));
    assert!(plays(
        format!("{{ \"Content-Location\" = u; d = ({}); }}", "(),{},".repeat(3000)).as_bytes()
    ));
    // What stands in texts of the old form is no markup.
    assert!(plays(b"{ \"Content-Location\" = u; d = \"<date>9999-12-31T23:59:59-01:00</date>\"; }"));

    let many: Vec<plist::Value> = (0..70_000i64).map(|i| plist::Value::Integer(i.into())).collect();
    let dict: plist::Dictionary = [
        ("Content-Location".to_string(), plist::Value::String("u".into())),
        ("d".to_string(), plist::Value::Array(many)),
    ]
    .into_iter()
    .collect();
    let mut body = Vec::new();
    plist::to_writer_binary(&mut body, &plist::Value::Dictionary(dict)).unwrap();
    assert!(plays(&body));
}

#[test]
fn comments_and_other_markup_are_passed_over() {
    assert!(plays(b"<plist><!--\"--><dict><key>Content-Location</key><string>u</string></dict></plist>"));
    let tags = "<array>".repeat(2000);
    let ends = "</array>".repeat(2000);
    for skipped in [
        format!("<!-- {tags} -->"),
        format!("<!-- {ends} ' -->"),
        format!("<![CDATA[ {tags} \" > ]]>"),
        format!("<?x {tags} ?>"),
        "<!---->".to_string(),
        "<!--->-->".to_string(),
    ] {
        assert!(plays(&xml_play(&skipped)));
        // A comment does not end the nesting that it stands in.
        let deep = format!("<key>d</key>{tags}{skipped}{ends}");
        assert!(refused(&xml_play(&deep)));
    }
    for head in [
        "<?xml version=\"1.0\"?>\n<!DOCTYPE plist PUBLIC \"-//X//DTD > [ 1.0//EN\" \"a\">".to_string(),
        format!("<!DOCTYPE plist [ <!ELEMENT a (b)> <!ENTITY c \"]>{tags}\"> <!-- ]>{tags} --> ]>"),
        format!("<!doctype plist [ <?x ]>{tags} ?> <!ATTLIST a b '>]'> <!NOTATION n \">\"> <x> ]>"),
        "\u{feff}\n".to_string(),
    ] {
        let mut body = head.into_bytes();
        body.extend_from_slice(&xml_play("<key>d</key><array a='>' b=\"</array>\"></array >"));
        assert!(plays(&body));
    }
    // Broken markup is no matter of the limits.
    for broken in ["<!-- ", "<![CDATA[", "<?x", "<?>", "<!x>", "<!DOCTYPE [", "<a", "&amp", "</array>"] {
        let body = xml_play(broken);
        assert!(fits(&body, true) && play_request(&body).is_none());
    }
}

#[test]
fn shared_and_recursive_objects_count_as_often_as_they_are_read() {
    // Each array holds the next one twice.
    let doubled = |levels: u16| {
        let mut list: Vec<Vec<u8>> =
            (0..levels).map(|i| container(0xa2, &[i + 1, i + 1])).collect();
        list.push(vec![0x10, 7]);
        objects(&list)
    };
    // Nineteen levels are read as one value less than the room for shared ones.
    assert_eq!(SHARED_VALUES, 1 << 20);
    assert!(fits(&doubled(19), true));
    assert!(!fits(&doubled(20), true));
    assert!(!fits(&doubled(200), true));
    let value: plist::Value = plist::from_bytes(&doubled(3)).unwrap();
    assert_eq!(value.as_array().map(|a| a.len()), Some(2));
    // An array that holds itself.
    let ring = objects(&[container(0xa1, &[0])]);
    assert!(refused(&ring));
    // What cannot be read is no matter of the limits.
    let broken = objects(&[container(0xa1, &[9])]);
    assert!(fits(&broken, true) && play_request(&broken).is_none());
    assert!(fits(b"bplist00", true) && play_request(b"bplist00").is_none());
    // A length of its own: an array of sixteen times the number.
    let mut long = vec![0xaf, 0x10, 16];
    long.extend_from_slice(&[0, 5].repeat(16));
    assert!(plays(&binary_play(&[long, vec![0x10, 7]])));
}

#[test]
fn binary_dates_are_read_from_the_year_zero_on() {
    let dated = |seconds: f64| {
        let mut date = vec![0x33];
        date.extend_from_slice(&seconds.to_be_bytes());
        binary_play(&[date])
    };
    for seconds in [0.0, -1.5, 1.0e9, -978307200.0, 252423993599.0] {
        assert!(fits(&dated(seconds), false) && plays(&dated(seconds)));
    }
    for seconds in [-978307201.0, -12622780801.0, -63145526400.0] {
        assert!(!fits(&dated(seconds), false) && plays(&dated(seconds)));
    }
    assert!(refused(&dated(-63145526400.00001)));
    assert!(refused(&dated(-63145526401.0)));
    assert!(refused(&dated(f64::NEG_INFINITY)));
    // Dates that are too late are no property list at all.
    assert!(fits(&dated(252423993600.0), true) && play_request(&dated(252423993600.0)).is_none());
    assert!(fits(&dated(f64::NAN), true) && play_request(&dated(f64::NAN)).is_none());
}

#[test]
fn dates_are_read_within_their_years() {
    let dated = |date: &str| xml_play(&format!("<key>d</key>{date}"));
    for date in [
        "<date>2024-05-06T07:08:09Z</date>",
        "<date>1971-01-01T00:00:00+23:59</date>",
        "<x:date>9998-12-31T23:59:59-23:59</x:date>",
        "<date>9999-12-31T23:59:59Z</date>",
        "<date>9999-12-31T23:58:59.5-00:01</date>",
        "<date>9999-12-31T00:00:00-23:59</date>",
        "<date a='>9999'>9999-12-31T23:59:59+01:00</date>",
        "<date >&#50;0&#x32;4-05<!-- x -->-06T07:08:09Z</date>",
        "<string>a:date 9999</string>",
    ] {
        assert!(fits(&dated(date), false) && plays(&dated(date)), "{date}");
    }
    for date in [
        "<date>1970-12-31T00:00:00Z</date>",
        "<date>1601-01-01T00:00:00Z</date>",
        "<date>0001-01-01T00:00:00Z</date>",
        "<date>0000-01-01T01:00:00+01:00</date>",
        "<date>0000-01-01T00:00:00-23:59</date>",
    ] {
        assert!(!fits(&dated(date), false) && plays(&dated(date)), "{date}");
    }
    for date in [
        "<date>9999-12-31T23:59:59-00:01</date>",
        "<date>9999-12-31T23:59:59-01:00</date>",
        "<date>9999-12-31 00:01:00.25-23:59</date>",
        "<date>0000-01-01T00:59:59+01:00</date>",
        "<x:date>9999-12-31T23:59:59-01:00</x:date>",
        "<date a=\">2024\">9999-12-31T23:59:59-01:00</date>",
        "<date>&#57;99&#x39;-12-31T23:59:59-01:00</date>",
        "<date>9999-12-31&lt;23:59:59-01:00</date>",
        "<date>9999&none;-12-31T23:59:59-01:00</date>",
        "<date><!-- -->9999-12<![CDATA[x]]>-31T23:59:59<?x?>-01:00</date>",
        "<a</x:date>9999-12-31T23:59:59-01:00</a</x:date>",
        "<a\">\":date>9999-12-31T23:59:59-01:00</a\">\":date>",
    ] {
        assert!(refused(&dated(date)), "{date}");
    }
    // Nothing that is no date leaves the years.
    for date in ["<date/>", "<date></date>", "<date>9999-12-31T23:59:59</date>"] {
        assert!(fits(&dated(date), true) && play_request(&dated(date)).is_none());
    }
}
