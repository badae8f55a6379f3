use ferrumc::codec::read_varint;
use ferrumc::error::Error;
use ferrumc::protocol::build_frame;
use ferrumc::protocol::favicon_data_url;
use ferrumc::protocol::handle_frame;
use ferrumc::protocol::parse_handshake;
use ferrumc::protocol::u32_to_dec;
use ferrumc::protocol::ConnState;
use ferrumc::protocol::Connection;
use ferrumc::protocol::ServerInfo;

fn info() -> ServerInfo {
    ServerInfo {
        max_players: 20,
        online: 2,
        motd: "A Minecraft \"Server\"".to_string(),
        favicon: "data:image/png;base64,AQID".to_string(),
    }
}

/// The handshake frame of scenario S1, with its outer length prefix.
fn s1_handshake_wire() -> Vec<u8> {
    let mut w = vec![0x10u8, 0x00, 0xF4, 0x05, 0x09];
    w.extend_from_slice(b"127.0.0.1");
    w.extend_from_slice(&[0x63, 0xDD, 0x01]);
    w
}

/// Strips the outer frame length prefix, checking it is consistent.
fn unwrap_frame(wire: &[u8]) -> Vec<u8> {
    let buf = wire.to_vec();
    let (len, at) = read_varint(&buf, 0).unwrap();
    assert_eq!(len as usize, buf.len() - at);
    buf[at..].to_vec()
}

#[test]
fn s1_status_handshake() {
    let mut conn = Connection::new(1);
    let body = unwrap_frame(&s1_handshake_wire());
    assert_eq!(handle_frame(&mut conn, &body, &info()), Ok(true));
    assert_eq!(conn.state, ConnState::Status);
    assert_eq!(conn.protocol_version, 756);
    assert!(conn.outgoing.is_empty());

    // StatusRequest: wire [0x01, 0x00], body [0x00].
    let body = unwrap_frame(&[0x01, 0x00]);
    assert_eq!(handle_frame(&mut conn, &body, &info()), Ok(true));

    // The outgoing queue holds one StatusResponse frame: packet id 0,
    // then the JSON as a length-prefixed string.
    let response = conn.outgoing.clone();
    let payload = unwrap_frame(&response);
    let (packet_id, at) = read_varint(&payload, 0).unwrap();
    assert_eq!(packet_id, 0x00);
    let (json_len, at) = read_varint(&payload, at).unwrap();
    let json_bytes = &payload[at..];
    assert_eq!(json_len as usize, json_bytes.len());
    let parsed: serde_json::Value = serde_json::from_slice(json_bytes).unwrap();
    assert_eq!(parsed["version"]["name"], "1.20.6");
    assert_eq!(parsed["version"]["protocol"], 756);
    assert_eq!(parsed["players"]["max"], 20);
    assert_eq!(parsed["players"]["online"], 2);
    assert_eq!(parsed["description"]["text"], "A Minecraft \"Server\"");
    assert_eq!(parsed["favicon"], "data:image/png;base64,AQID");
}

#[test]
fn s2_ping_echoes() {
    let mut conn = Connection::new(2);
    conn.state = ConnState::Status;
    let wire = vec![0x09u8, 0x01, 0x00, 0x01, 0x02, 0x03, 0x04, 0x05, 0x06, 0x07];
    let body = unwrap_frame(&wire);
    assert_eq!(handle_frame(&mut conn, &body, &info()), Ok(false));
    assert_eq!(conn.outgoing, wire);
}

#[test]
fn handshake_to_login() {
    let mut body = vec![0x00u8, 0xF4, 0x05, 0x02];
    body.extend_from_slice(b"mc");
    body.extend_from_slice(&[0x63, 0xDD, 0x02]);
    let mut conn = Connection::new(3);
    assert_eq!(handle_frame(&mut conn, &body, &info()), Ok(true));
    assert_eq!(conn.state, ConnState::Login);
}

#[test]
fn handshake_rejects_bad_next_state() {
    let mut payload = vec![0xF4u8, 0x05, 0x02];
    payload.extend_from_slice(b"mc");
    payload.extend_from_slice(&[0x63, 0xDD, 0x03]);
    assert_eq!(parse_handshake(&payload), Err(Error::Protocol));
}

#[test]
fn handshake_rejects_trailing_bytes() {
    let mut payload = vec![0xF4u8, 0x05, 0x02];
    payload.extend_from_slice(b"mc");
    payload.extend_from_slice(&[0x63, 0xDD, 0x01, 0x00]);
    assert_eq!(parse_handshake(&payload), Err(Error::Protocol));
}

#[test]
fn parse_handshake_fields() {
    let mut payload = vec![0xF4u8, 0x05, 0x09];
    payload.extend_from_slice(b"127.0.0.1");
    payload.extend_from_slice(&[0x63, 0xDD, 0x01]);
    let (proto, addr, port, next) = parse_handshake(&payload).unwrap();
    assert_eq!(proto, 756);
    assert_eq!(addr, b"127.0.0.1".to_vec());
    assert_eq!(port, 25565);
    assert_eq!(next, ConnState::Status);
}

#[test]
fn unknown_packets_terminate_outside_play() {
    let mut conn = Connection::new(4);
    conn.state = ConnState::Status;
    assert_eq!(handle_frame(&mut conn, &vec![0x05], &info()), Err(Error::Protocol));
    let mut conn = Connection::new(5);
    conn.state = ConnState::Login;
    assert_eq!(handle_frame(&mut conn, &vec![0x00], &info()), Err(Error::Protocol));
    // In Play, unknown ids are skipped and the connection lives on.
    let mut conn = Connection::new(6);
    conn.state = ConnState::Play;
    assert_eq!(handle_frame(&mut conn, &vec![0x7C], &info()), Ok(true));
    assert!(conn.outgoing.is_empty());
}

#[test]
fn frame_wraps_id_and_payload() {
    let frame = build_frame(0x01, &vec![0xAB, 0xCD]).unwrap();
    assert_eq!(frame, vec![0x03, 0x01, 0xAB, 0xCD]);
}

#[test]
fn favicon_data_url_encodes_base64() {
    assert_eq!(
        favicon_data_url(&vec![1, 2, 3]),
        "data:image/png;base64,AQID".to_string()
    );
    assert_eq!(favicon_data_url(&Vec::new()), "data:image/png;base64,".to_string());
}

#[test]
fn decimal_rendering() {
    assert_eq!(u32_to_dec(0), "0".to_string());
    assert_eq!(u32_to_dec(7), "7".to_string());
    assert_eq!(u32_to_dec(20), "20".to_string());
    assert_eq!(u32_to_dec(4294967295), "4294967295".to_string());
}

#[test]
fn keep_alive_frame_is_big_endian() {
    let frame = ferrumc::protocol::keep_alive_frame(0x0102030405060708);
    assert_eq!(
        frame,
        vec![0x09, 0x26, 0x01, 0x02, 0x03, 0x04, 0x05, 0x06, 0x07, 0x08]
    );
    assert_eq!(
        ferrumc::protocol::keep_alive_frame(1),
        vec![0x09, 0x26, 0, 0, 0, 0, 0, 0, 0, 1]
    );
}
