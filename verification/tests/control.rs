use shairplay::dacp::{
    repeat_path, service_port, shuffle_path, text_contains, volume_path, DacpClient, NEXT_PATH,
    PLAY_PAUSE_PATH, PREVIOUS_PATH, STOP_PATH,
};
use shairplay::net::{IpAddress, SocketAddress};
use shairplay::raop::ntp::{
    build_timing_request, build_timing_response, initial_requests, is_timing_request,
    ntp_timestamp, on_datagram, on_timeout, sender_allowed,
};
use shairplay::raop::remote::{command_path, ip_addr_from_remote, DacpRemoteControl, RemoteCommand};

fn v4(a: u8, b: u8, c: u8, d: u8, port: u16) -> SocketAddress {
    SocketAddress {
        ip: IpAddress::V4([a, b, c, d]),
        port,
    }
}

#[test]
fn volume_and_repeat_paths_clamp() {
    assert_eq!(volume_path(55), "/ctrl-int/1/setproperty?dmcp.volume=55");
    assert_eq!(volume_path(200), "/ctrl-int/1/setproperty?dmcp.volume=100");
    assert_eq!(shuffle_path(true), "/ctrl-int/1/setproperty?dacp.shufflestate=1");
    assert_eq!(shuffle_path(false), "/ctrl-int/1/setproperty?dacp.shufflestate=0");

    assert_eq!(repeat_path(0), "/ctrl-int/1/setproperty?dacp.repeatstate=0");
    assert_eq!(repeat_path(2), "/ctrl-int/1/setproperty?dacp.repeatstate=2");
    assert_eq!(repeat_path(9), "/ctrl-int/1/setproperty?dacp.repeatstate=2");
}

#[test]
fn command_request_contains_required_headers() {
    let client = DacpClient::new("DACP", "1234");
    let req = client.command_request(PLAY_PAUSE_PATH, "127.0.0.1:3689");
    assert!(req.starts_with("GET /ctrl-int/1/playpause HTTP/1.1\r\n"));
    assert!(req.contains("Active-Remote: 1234\r\n"));
    assert!(req.contains("Host: 127.0.0.1:3689\r\n"));
    assert!(req.contains("Connection: close\r\n"));
    assert!(req.ends_with("\r\n\r\n"));
}

#[test]
fn command_requires_discovery_first() {
    let client = DacpClient::new("DACP", "1234");
    let err = client
        .target()
        .expect_err("command should fail without discovery");
    assert!(err.message().contains("discover_from_remote()"));
}

#[test]
fn command_blocking_accepts_http_1_1_2xx_and_sends_request() {
    let mut client = DacpClient::new("DACP", "4321");
    client.addr = Some(v4(127, 0, 0, 1, 4000));
    let request = client.command_request(NEXT_PATH, "127.0.0.1:4000");
    assert!(request.starts_with("GET /ctrl-int/1/nextitem HTTP/1.1\r\n"));
    assert!(request.contains("Active-Remote: 4321\r\n"));
    DacpClient::check_response(b"HTTP/1.1 200 OK\r\nContent-Length: 0\r\n\r\n")
        .expect("2xx response should succeed");
}

#[test]
fn command_blocking_accepts_http_1_0_2xx() {
    DacpClient::check_response(b"HTTP/1.0 204 No Content\r\nContent-Length: 0\r\n\r\n")
        .expect("HTTP/1.0 2xx should succeed");
}

#[test]
fn command_blocking_rejects_empty_response() {
    let err = DacpClient::check_response(&[]).expect_err("empty response should fail");
    assert!(err.message().contains("empty response"));
}

#[test]
fn command_blocking_rejects_non_2xx_status() {
    let err = DacpClient::check_response(
        b"HTTP/1.1 503 Service Unavailable\r\nContent-Length: 0\r\n\r\n",
    )
    .expect_err("non-2xx should fail");
    assert!(err.message().contains("DACP command failed"));
}

#[test]
fn responses_that_are_no_text_are_failures() {
    let mut bytes = b"HTTP/1.1 200 OK\r\n".to_vec();
    bytes.push(0xff);
    let err = DacpClient::check_response(&bytes).expect_err("not UTF-8");
    assert_eq!(err.message(), "DACP command failed");
    assert!(DacpClient::check_response(b"HTTP/1.1 2").is_ok());
    assert!(DacpClient::check_response(b"HTTP/1.1 ").is_err());
}

#[test]
fn wrapper_methods_send_expected_paths() {
    let scenarios: Vec<(&str, RemoteCommand)> = vec![
        (PLAY_PAUSE_PATH, RemoteCommand::Play),
        (PLAY_PAUSE_PATH, RemoteCommand::Pause),
        (NEXT_PATH, RemoteCommand::NextTrack),
        (PREVIOUS_PATH, RemoteCommand::PreviousTrack),
        (STOP_PATH, RemoteCommand::Stop),
        (
            "/ctrl-int/1/setproperty?dmcp.volume=100",
            RemoteCommand::SetVolume(200),
        ),
        (
            "/ctrl-int/1/setproperty?dacp.shufflestate=1",
            RemoteCommand::ToggleShuffle,
        ),
        (
            "/ctrl-int/1/setproperty?dacp.repeatstate=1",
            RemoteCommand::ToggleRepeat,
        ),
    ];
    let client = DacpClient::new("DACP", "4321");
    for (expected_path, command) in scenarios {
        let request = client.command_request(&command_path(command), "127.0.0.1:3689");
        assert!(request.starts_with(&format!("GET {expected_path} HTTP/1.1\r\n")));
    }
    let request = client.command_request(&repeat_path(9), "127.0.0.1:3689");
    assert!(request.starts_with("GET /ctrl-int/1/setproperty?dacp.repeatstate=2 HTTP/1.1\r\n"));
}

#[test]
fn services_are_found_whatever_the_case_of_their_names() {
    assert_eq!(
        service_port("iTunes_Ctrl_7711da8b47838cb5._dacp._tcp.local.", 3001, "7711DA8B47838CB5"),
        Some(3001)
    );
    assert_eq!(
        service_port("iTunes_Ctrl_7711DA8B47838CB5._dacp._tcp.local.", 3001, "7711da8b47838cb5"),
        Some(3001)
    );
    assert_eq!(
        service_port("iTunes_Ctrl_0011DA8B47838CB5._dacp._tcp.local.", 3001, "7711DA8B47838CB5"),
        None
    );
    assert!(text_contains("ABC", ""));
    assert!(text_contains("ABC", "BC"));
    assert!(!text_contains("ABC", "AC"));
    assert!(!text_contains("", "A"));
}

#[test]
fn discovery_falls_back_to_the_usual_port() {
    let mut client = DacpClient::new("ID", "1");
    client.discover_from_remote(IpAddress::V4([10, 0, 0, 5]), None);
    assert_eq!(client.target().unwrap(), v4(10, 0, 0, 5, 3689));
    client.discover_from_remote(IpAddress::V4([10, 0, 0, 5]), Some(4242));
    assert_eq!(client.target().unwrap(), v4(10, 0, 0, 5, 4242));
}

#[test]
fn ip_addr_from_remote_parses_ipv4() {
    let ip = ip_addr_from_remote(&[192, 168, 1, 9]);
    assert_eq!(ip, Some(IpAddress::V4([192, 168, 1, 9])));
}

#[test]
fn ip_addr_from_remote_parses_ipv6() {
    let ip = ip_addr_from_remote(&[0x20, 0x01, 0x0d, 0xb8, 0, 0, 0, 0, 0, 0, 0, 0, 0, 0, 0, 1]);
    assert_eq!(
        ip,
        Some(IpAddress::V6([
            0x20, 0x01, 0x0d, 0xb8, 0, 0, 0, 0, 0, 0, 0, 0, 0, 0, 0, 1
        ]))
    );
}

#[test]
fn ip_addr_from_remote_rejects_invalid_lengths() {
    assert_eq!(ip_addr_from_remote(&[]), None);
    assert_eq!(ip_addr_from_remote(&[127, 0, 0]), None);
    assert_eq!(ip_addr_from_remote(&[0u8; 15]), None);
    assert_eq!(ip_addr_from_remote(&[0u8; 17]), None);
}

#[test]
fn dacp_available_commands_exposes_expected_controls() {
    let remote = DacpRemoteControl::new("deadbeef", "123456", &[127, 0, 0, 1], None);
    let cmds = remote.available_commands();

    assert!(cmds.contains(&RemoteCommand::Play));
    assert!(cmds.contains(&RemoteCommand::Pause));
    assert!(cmds.contains(&RemoteCommand::NextTrack));
    assert!(cmds.contains(&RemoteCommand::PreviousTrack));
    assert!(cmds.contains(&RemoteCommand::SetVolume(0)));
    assert!(cmds.contains(&RemoteCommand::ToggleShuffle));
    assert!(cmds.contains(&RemoteCommand::ToggleRepeat));
    assert!(cmds.contains(&RemoteCommand::Stop));
    assert_eq!(cmds.len(), 8);
}

#[test]
fn commands_go_to_the_device_once_it_is_known() {
    let remote = DacpRemoteControl::new("deadbeef", "123456", &[127, 0, 0, 1], Some(77));
    let (target, path) = remote.plan_command(RemoteCommand::SetVolume(30)).unwrap();
    assert_eq!(target, v4(127, 0, 0, 1, 77));
    assert_eq!(path, "/ctrl-int/1/setproperty?dmcp.volume=30");

    let lost = DacpRemoteControl::new("deadbeef", "123456", &[1, 2, 3], Some(77));
    let err = lost.plan_command(RemoteCommand::Stop).unwrap_err();
    assert!(err.message().starts_with("DACP not discovered yet"));
}

#[test]
fn timing_request_signature_requires_len_and_type() {
    let mut req = [0u8; 32];
    req[1] = 0x52;
    assert!(is_timing_request(&req));
    assert!(!is_timing_request(&req[..31]));
    req[1] = 0x51;
    assert!(!is_timing_request(&req));
    req[1] = 0xd2;
    assert!(is_timing_request(&req));
}

#[test]
fn build_timing_request_sets_header_and_transmit_timestamp() {
    let req = build_timing_request(0x1122_3344, 0x5566_7788);
    assert_eq!(req[0], 0x80);
    assert_eq!(req[1], 0xd2);
    assert_eq!(&req[24..28], &0x1122_3344u32.to_be_bytes());
    assert_eq!(&req[28..32], &0x5566_7788u32.to_be_bytes());
}

#[test]
fn build_timing_response_echoes_and_stamps_fields() {
    let mut req = [0u8; 32];
    req[1] = 0x52;
    req[24..28].copy_from_slice(&0xAABB_CCDDu32.to_be_bytes());
    req[28..32].copy_from_slice(&0xEEFF_0011u32.to_be_bytes());

    let resp = build_timing_response(&req, 0x0102_0304, 0x0506_0708).unwrap();
    assert_eq!(resp[1], 0xd3);
    assert_eq!(&resp[8..12], &0xAABB_CCDDu32.to_be_bytes());
    assert_eq!(&resp[12..16], &0xEEFF_0011u32.to_be_bytes());
    assert_eq!(&resp[16..20], &0x0102_0304u32.to_be_bytes());
    assert_eq!(&resp[20..24], &0x0506_0708u32.to_be_bytes());
    assert_eq!(&resp[24..28], &0x0102_0304u32.to_be_bytes());
    assert_eq!(&resp[28..32], &0x0506_0708u32.to_be_bytes());
}

#[test]
fn sender_allowed_requires_matching_ip_when_remote_known() {
    let remote = v4(192, 168, 1, 10, 7010);
    let ok_same_ip = v4(192, 168, 1, 10, 9000);
    let bad_other_ip = v4(192, 168, 1, 11, 7010);
    assert!(sender_allowed(&remote, &ok_same_ip));
    assert!(!sender_allowed(&remote, &bad_other_ip));
}

#[test]
fn sender_allowed_accepts_any_when_remote_port_unknown() {
    let remote = v4(192, 168, 1, 10, 0);
    let sender = v4(10, 0, 0, 7, 9000);
    assert!(sender_allowed(&remote, &sender));
}

#[test]
fn ntp_times_count_from_1900() {
    assert_eq!(ntp_timestamp(0, 0), (0x83AA_7E80, 0));
    assert_eq!(ntp_timestamp(1, 500_000_000), (0x83AA_7E81, 0x8000_0000));
    // The seconds wrap in 2036.
    assert_eq!(ntp_timestamp(0x7C55_8180, 999_999_999), (0, 0xFFFF_FFFB));
}

#[test]
fn responder_answers_requests_and_asks_when_it_hears_nothing() {
    let remote = v4(192, 168, 1, 10, 7010);
    let request = build_timing_request(5, 6);
    let answer = on_datagram(&remote, &v4(192, 168, 1, 10, 1), &request, (7, 8)).unwrap();
    assert_eq!(answer[1], 0xd3);
    assert_eq!(&answer[8..16], &request[24..32]);
    assert!(on_datagram(&remote, &v4(10, 0, 0, 1, 1), &request, (7, 8)).is_none());
    assert!(on_datagram(&remote, &v4(192, 168, 1, 10, 1), &answer, (7, 8)).is_none());

    assert_eq!(initial_requests(&remote), 3);
    assert_eq!(on_timeout(&remote, (9, 10)), Some(build_timing_request(9, 10)));
    let unknown = v4(192, 168, 1, 10, 0);
    assert_eq!(initial_requests(&unknown), 0);
    assert_eq!(on_timeout(&unknown, (9, 10)), None);
}
