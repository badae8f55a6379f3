//! The per-connection protocol state machine: handshake, status and
//! ping handling, packet framing, and the status JSON payload.
//!
//! A frame handed to [`handle_frame`] is the unwrapped body of one
//! wire frame: a VarInt packet id followed by the payload. Responses
//! are appended to the connection's outgoing buffer as complete
//! frames, length prefix included.
use vstd::prelude::*;

use vstd::string::StringExecFns;
use vstd::utf8::encode_utf8;

use crate::codec::read_prefixed_bytes;
use crate::codec::read_u16_be;
use crate::codec::read_varint;
use crate::codec::u32_rep;
use crate::codec::varint_dec;
use crate::codec::varint_enc;
use crate::codec::write_varint;
use crate::ecs::Entity;
use crate::error::Error;

verus! {

/// The protocol states of a connection, in the order the handshake
/// reaches them.
#[derive(Debug, Clone, Copy, PartialEq, Eq, Structural)]
pub enum ConnState {
    Handshake,
    Status,
    Login,
    Play,
}

/// A connection as the state machine sees it: its process-unique id,
/// protocol state, the protocol version the client reported, the
/// entity created at login, and the outgoing byte queue.
pub struct Connection {
    pub id: u64,
    pub state: ConnState,
    pub protocol_version: i32,
    pub entity: Option<Entity>,
    pub outgoing: Vec<u8>,
}

impl Connection {
    pub fn new(id: u64) -> (c: Connection)
        ensures
            c.id == id,
            c.state == ConnState::Handshake,
            c.protocol_version == 0,
            c.entity is None,
            c.outgoing@ == Seq::<u8>::empty(),
    {
        Connection {
            id,
            state: ConnState::Handshake,
            protocol_version: 0,
            entity: None,
            outgoing: Vec::new(),
        }
    }
}

/// The process-wide configuration snapshot and cached favicon data
/// URL that the status handler reports.
pub struct ServerInfo {
    pub max_players: u32,
    pub online: u32,
    pub motd: String,
    pub favicon: String,
}

/// An incoming packet, handled against the connection it arrived on.
pub trait IncomingPacket {
    fn handle(&self, conn: &mut Connection, info: &ServerInfo) -> Result<(), Error>;
}

/// The signed 32-bit value whose unsigned image is `u`.
pub open spec fn i32_of_rep(u: nat) -> i32 {
    if u < 0x8000_0000 {
        u as i32
    } else {
        (u - 0x1_0000_0000) as i32
    }
}

/// A string or byte-array packet field: a VarInt byte count, then
/// the bytes.
pub open spec fn string_payload(bytes: Seq<u8>) -> Seq<u8> {
    varint_enc(bytes.len()) + bytes
}

/// A complete wire frame around one packet: the body is the VarInt
/// packet id followed by the payload, prefixed by its byte length.
pub open spec fn frame_for(packet_id: i32, payload: Seq<u8>) -> Seq<u8> {
    let body = varint_enc(u32_rep(packet_id)) + payload;
    varint_enc(body.len()) + body
}

/// What a handshake payload means: the protocol version, the server
/// address bytes, the port, and the requested next state (status or
/// login). Anything else — a malformed VarInt, an oversized address,
/// a short buffer, trailing bytes, or an unknown next state — is
/// rejected.
pub open spec fn handshake_parse(p: Seq<u8>) -> Option<(i32, Seq<u8>, u16, ConnState)> {
    match varint_dec(p) {
        None => None,
        Some((vp, l1)) => match varint_dec(p.skip(l1 as int)) {
            None => None,
            Some((alen, l2)) => {
                let astart = l1 + l2;
                if alen > 32767 || astart + alen + 2 > p.len() {
                    None
                } else {
                    let addr = p.subrange(astart as int, (astart + alen) as int);
                    let pstart = astart + alen;
                    let port = (p[pstart as int] * 256 + p[pstart as int + 1]) as u16;
                    match varint_dec(p.skip((pstart + 2) as int)) {
                        None => None,
                        Some((vn, l3)) => {
                            if pstart + 2 + l3 != p.len() {
                                None
                            } else if vn == 1 {
                                Some((i32_of_rep(vp), addr, port, ConnState::Status))
                            } else if vn == 2 {
                                Some((i32_of_rep(vp), addr, port, ConnState::Login))
                            } else {
                                None
                            }
                        },
                    }
                }
            },
        },
    }
}

/// The bytes of `buf` from `pos` on, as an owned vector.
fn tail_bytes(buf: &Vec<u8>, pos: usize) -> (r: Vec<u8>)
    requires
        pos <= buf@.len(),
    ensures
        r@ == buf@.skip(pos as int),
{
    let mut out: Vec<u8> = Vec::new();
    let mut at = pos;
    while at < buf.len()
        invariant
            pos <= at <= buf@.len(),
            out@ == buf@.subrange(pos as int, at as int),
        decreases buf@.len() - at,
    {
        let b = buf[at];
        out.push(b);
        proof {
            assert(out@ =~= buf@.subrange(pos as int, at + 1));
        }
        at = at + 1;
    }
    proof {
        assert(out@ =~= buf@.skip(pos as int));
    }
    out
}

/// Parses a handshake payload: exactly the fields `handshake_parse`
/// describes; `Protocol` iff the payload is rejected.
pub fn parse_handshake(payload: &Vec<u8>) -> (r: Result<(i32, Vec<u8>, u16, ConnState), Error>)
    ensures
        match handshake_parse(payload@) {
            Some(h) => r is Ok && r.unwrap().0 == h.0 && r.unwrap().1@ == h.1 && r.unwrap().2
                == h.2 && r.unwrap().3 == h.3,
            None => r == Err::<(i32, Vec<u8>, u16, ConnState), Error>(Error::Protocol),
        },
{
    proof {
        assert(payload@.skip(0) =~= payload@);
    }
    let (proto, p1) = match read_varint(payload, 0) {
        Ok(p) => p,
        Err(_) => {
            return Err(Error::Protocol);
        },
    };
    let (addr, p2) = match read_prefixed_bytes(payload, p1, 32767) {
        Ok(p) => p,
        Err(_) => {
            return Err(Error::Protocol);
        },
    };
    let (port, p3) = match read_u16_be(payload, p2) {
        Ok(p) => p,
        Err(_) => {
            return Err(Error::Protocol);
        },
    };
    let (next, p4) = match read_varint(payload, p3) {
        Ok(p) => p,
        Err(_) => {
            return Err(Error::Protocol);
        },
    };
    if p4 != payload.len() {
        return Err(Error::Protocol);
    }
    let state = if next == 1 {
        ConnState::Status
    } else if next == 2 {
        ConnState::Login
    } else {
        return Err(Error::Protocol);
    };
    Ok((proto, addr, port, state))
}

/// Builds the complete frame around one packet: `Protocol` iff the
/// body is too long for a frame length prefix.
pub fn build_frame(packet_id: i32, payload: &Vec<u8>) -> (r: Result<Vec<u8>, Error>)
    ensures
        match r {
            Ok(f) => f@ == frame_for(packet_id, payload@),
            Err(e) => e == Error::Protocol && varint_enc(u32_rep(packet_id)).len()
                + payload@.len() > 0x7FFF_FFFF,
        },
{
    let mut body = write_varint(packet_id);
    if payload.len() > 0x7FFF_FFFF - body.len() {
        return Err(Error::Protocol);
    }
    let mut at: usize = 0;
    while at < payload.len()
        invariant
            at <= payload@.len(),
            body@ == varint_enc(u32_rep(packet_id)) + payload@.subrange(0, at as int),
        decreases payload@.len() - at,
    {
        let b = payload[at];
        body.push(b);
        proof {
            assert(body@ =~= varint_enc(u32_rep(packet_id)) + payload@.subrange(0, at + 1));
        }
        at = at + 1;
    }
    proof {
        assert(payload@.subrange(0, payload@.len() as int) =~= payload@);
    }
    let len = body.len();
    let mut out = write_varint(len as i32);
    proof {
        assert(u32_rep(len as i32) == body@.len());
    }
    out.append(&mut body);
    Ok(out)
}

/// A 64-bit integer in network order (big-endian), as the keep-alive
/// packet body carries it.
pub open spec fn u64_be_bytes(v: u64) -> Seq<u8> {
    seq![
        ((v >> 56) & 0xFF) as u8,
        ((v >> 48) & 0xFF) as u8,
        ((v >> 40) & 0xFF) as u8,
        ((v >> 32) & 0xFF) as u8,
        ((v >> 24) & 0xFF) as u8,
        ((v >> 16) & 0xFF) as u8,
        ((v >> 8) & 0xFF) as u8,
        (v & 0xFF) as u8,
    ]
}

/// The clientbound Play keep-alive packet id.
pub const KEEP_ALIVE_PACKET_ID: i32 = 0x26;

/// Builds the clientbound keep-alive frame: packet id 0x26 carrying
/// the counter as one big-endian 64-bit integer.
pub fn keep_alive_frame(data: u64) -> (r: Vec<u8>)
    ensures
        r@ == frame_for(KEEP_ALIVE_PACKET_ID as i32, u64_be_bytes(data)),
{
    let mut payload: Vec<u8> = Vec::new();
    payload.push(((data >> 56) & 0xFF) as u8);
    payload.push(((data >> 48) & 0xFF) as u8);
    payload.push(((data >> 40) & 0xFF) as u8);
    payload.push(((data >> 32) & 0xFF) as u8);
    payload.push(((data >> 24) & 0xFF) as u8);
    payload.push(((data >> 16) & 0xFF) as u8);
    payload.push(((data >> 8) & 0xFF) as u8);
    payload.push((data & 0xFF) as u8);
    proof {
        assert(payload@ =~= u64_be_bytes(data));
    }
    match build_frame(KEEP_ALIVE_PACKET_ID, &payload) {
        Ok(f) => f,
        Err(_) => {
            proof {
                assert(varint_enc(u32_rep(KEEP_ALIVE_PACKET_ID as i32)) =~= seq![0x26u8]);
                assert(false);
            }
            Vec::new()
        },
    }
}

/// What JSON quotation of a string returns: quotes, escapes and all,
/// determined by the characters alone.
pub uninterp spec fn json_quoted(s: Seq<char>) -> Seq<char>;

/// Relies on serde_json::to_string on a string slice: it returns the
/// JSON string literal (quotes and escapes included) for exactly the
/// characters given, and cannot fail — string escaping is total and
/// the writer is an in-memory vector.
#[verifier::external_body]
fn json_quote(s: &str) -> (r: Result<String, Error>)
    ensures
        r is Ok,
        r matches Ok(q) ==> q@ == json_quoted(s@),
{
    match serde_json::to_string(s) {
        Ok(q) => Ok(q),
        Err(_) => Err(Error::Serialize),
    }
}

/// What base64 encoding of bytes returns, determined by the bytes
/// alone.
pub uninterp spec fn b64_of(b: Seq<u8>) -> Seq<char>;

/// Relies on base64's standard-alphabet engine: the encoding is a
/// function of the bytes alone.
#[verifier::external_body]
fn base64_encode(data: &Vec<u8>) -> (r: String)
    ensures
        r@ == b64_of(data@),
{
    base64::Engine::encode(&base64::engine::general_purpose::STANDARD, data)
}

/// The favicon field of the status response: a PNG as a data URL.
pub open spec fn favicon_url(png: Seq<u8>) -> Seq<char> {
    "data:image/png;base64,"@ + b64_of(png)
}

/// Encodes a favicon PNG as the data URL the status response carries.
pub fn favicon_data_url(png: &Vec<u8>) -> (r: String)
    ensures
        r@ == favicon_url(png@),
{
    let mut s = String::from_str("data:image/png;base64,");
    let b = base64_encode(png);
    s.append(b.as_str());
    s
}

/// The decimal digit character for `d`.
pub open spec fn dec_digit(d: int) -> char {
    ((48 + d) as u8) as char
}

/// The decimal numeral of `n`, most significant digit first.
pub open spec fn dec_str(n: nat) -> Seq<char>
    decreases n,
{
    if n < 10 {
        seq![dec_digit(n as int)]
    } else {
        dec_str(n / 10).push(dec_digit((n % 10) as int))
    }
}

/// The one-character numeral of a digit.
fn digit_str(d: u32) -> (r: &'static str)
    requires
        d < 10,
    ensures
        r@ == seq![dec_digit(d as int)],
{
    proof {
        reveal_strlit("0");
        reveal_strlit("1");
        reveal_strlit("2");
        reveal_strlit("3");
        reveal_strlit("4");
        reveal_strlit("5");
        reveal_strlit("6");
        reveal_strlit("7");
        reveal_strlit("8");
        reveal_strlit("9");
    }
    match d {
        0 => "0",
        1 => "1",
        2 => "2",
        3 => "3",
        4 => "4",
        5 => "5",
        6 => "6",
        7 => "7",
        8 => "8",
        _ => "9",
    }
}

/// Writes `n` in decimal.
pub fn u32_to_dec(n: u32) -> (r: String)
    ensures
        r@ == dec_str(n as nat),
    decreases n,
{
    if n < 10 {
        let mut s = String::new();
        s.append(digit_str(n));
        proof {
            assert(s@ =~= dec_str(n as nat));
        }
        s
    } else {
        let mut s = u32_to_dec(n / 10);
        s.append(digit_str(n % 10));
        s
    }
}

/// The status response JSON: the wire version name and the client's
/// protocol, the player cap and count with the sample players, the
/// message of the day, and the favicon data URL.
pub open spec fn status_json(
    protocol: u32,
    max_players: u32,
    online: u32,
    motd: Seq<char>,
    favicon: Seq<char>,
) -> Seq<char> {
    "{\"version\":{\"name\":\"1.20.6\",\"protocol\":"@ + dec_str(protocol as nat)
        + "},\"players\":{\"max\":"@ + dec_str(max_players as nat) + ",\"online\":"@ + dec_str(
        online as nat,
    )
        + ",\"sample\":[{\"name\":\"Recore_\",\"id\":\"2b3414ed-468a-45c2-b113-6c5f47430edc\"},{\"name\":\"sweattypalms\",\"id\":\"26d88d10-f052-430f-9406-e6c3089792c4\"}]},\"description\":{\"text\":"@
        + json_quoted(motd) + "},\"favicon\":"@ + json_quoted(favicon) + "}"@
}

/// Builds the status response JSON for a client's protocol version.
pub fn build_status_json(protocol: u32, info: &ServerInfo) -> (r: Result<String, Error>)
    ensures
        r is Ok,
        r matches Ok(s) ==> s@ == status_json(
            protocol,
            info.max_players,
            info.online,
            info.motd@,
            info.favicon@,
        ),
{
    let motd_q = match json_quote(info.motd.as_str()) {
        Ok(q) => q,
        Err(e) => {
            proof {
                assert(false);
            }
            return Err(e);
        },
    };
    let fav_q = match json_quote(info.favicon.as_str()) {
        Ok(q) => q,
        Err(e) => {
            proof {
                assert(false);
            }
            return Err(e);
        },
    };
    let mut s = String::from_str("{\"version\":{\"name\":\"1.20.6\",\"protocol\":");
    let p = u32_to_dec(protocol);
    s.append(p.as_str());
    s.append("},\"players\":{\"max\":");
    let m = u32_to_dec(info.max_players);
    s.append(m.as_str());
    s.append(",\"online\":");
    let o = u32_to_dec(info.online);
    s.append(o.as_str());
    s.append(
        ",\"sample\":[{\"name\":\"Recore_\",\"id\":\"2b3414ed-468a-45c2-b113-6c5f47430edc\"},{\"name\":\"sweattypalms\",\"id\":\"26d88d10-f052-430f-9406-e6c3089792c4\"}]},\"description\":{\"text\":",
    );
    s.append(motd_q.as_str());
    s.append("},\"favicon\":");
    s.append(fav_q.as_str());
    s.append("}");
    proof {
        assert(s@ =~= status_json(
            protocol,
            info.max_players,
            info.online,
            info.motd@,
            info.favicon@,
        ));
    }
    Ok(s)
}

/// The status response JSON owed to a client at this protocol
/// version, given the server's configuration snapshot.
pub open spec fn status_response_json(protocol: u32, info: &ServerInfo) -> Seq<char> {
    status_json(protocol, info.max_players, info.online, info.motd@, info.favicon@)
}

/// The status response packet (id 0) owed to a status request: the
/// JSON as a length-prefixed string.
pub open spec fn status_response_frame(protocol: u32, info: &ServerInfo) -> Seq<u8> {
    frame_for(0, string_payload(encode_utf8(status_response_json(protocol, info))))
}

/// The status request packet, sent by the client in the Status state
/// to ask for the server's status.
pub struct Status;

impl Status {
    /// Appends the status response frame to the connection's
    /// outgoing queue. Succeeds on every input whose response JSON
    /// fits the system-string cap; past the cap it fails with
    /// `Protocol` and the connection is exactly as it was.
    pub fn respond(conn: &mut Connection, info: &ServerInfo) -> (r: Result<(), Error>)
        ensures
            r is Ok <==> encode_utf8(
                status_response_json(u32_rep_of_i32(old(conn).protocol_version), info),
            ).len() <= 262144,
            r is Ok ==> final(conn).outgoing@ == old(conn).outgoing@ + status_response_frame(
                u32_rep_of_i32(old(conn).protocol_version),
                info,
            ),
            r is Err ==> r == Err::<(), Error>(Error::Protocol) && *final(conn) == *old(conn),
            final(conn).id == old(conn).id,
            final(conn).state == old(conn).state,
            final(conn).protocol_version == old(conn).protocol_version,
            final(conn).entity == old(conn).entity,
    {
        let pv = conn.protocol_version;
        let protocol: u32 = if pv >= 0 {
            pv as u32
        } else {
            ((pv as i64) + 0x1_0000_0000) as u32
        };
        let json = match build_status_json(protocol, info) {
            Ok(s) => s,
            Err(e) => {
                proof {
                    assert(false);
                }
                return Err(Error::Protocol);
            },
        };
        let bytes = vstd::slice::slice_to_vec(json.as_str().as_bytes());
        if bytes.len() > 262144 {
            return Err(Error::Protocol);
        }
        let ghost json_chars = json@;
        let ghost json_bytes = bytes@;
        let mut payload = write_varint(bytes.len() as i32);
        let mut data = bytes;
        payload.append(&mut data);
        proof {
            assert(json_bytes == encode_utf8(json_chars));
            assert(payload@ =~= string_payload(json_bytes));
        }
        let frame = match build_frame(0x00, &payload) {
            Ok(f) => f,
            Err(e) => {
                proof {
                    assert(varint_enc(u32_rep(0x00)) =~= seq![0u8]);
                    assert(false);
                }
                return Err(Error::Protocol);
            },
        };
        let mut out = frame;
        conn.outgoing.append(&mut out);
        Ok(())
    }
}

/// The unsigned image of a connection's protocol version field.
pub open spec fn u32_rep_of_i32(n: i32) -> u32 {
    u32_rep(n) as u32
}

impl IncomingPacket for Status {
    fn handle(&self, conn: &mut Connection, info: &ServerInfo) -> (r: Result<(), Error>)
        ensures
            r is Ok <==> encode_utf8(
                status_response_json(u32_rep_of_i32(old(conn).protocol_version), info),
            ).len() <= 262144,
            r is Ok ==> final(conn).outgoing@ == old(conn).outgoing@ + status_response_frame(
                u32_rep_of_i32(old(conn).protocol_version),
                info,
            ),
            r is Err ==> r == Err::<(), Error>(Error::Protocol) && *final(conn) == *old(conn),
    {
        Status::respond(conn, info)
    }
}

/// Drives one frame through the connection state machine: returns
/// `Ok(true)` to keep reading, `Ok(false)` when the connection is
/// done (after a pong), and `Protocol` on any malformed or illegal
/// packet. Responses are appended to the outgoing queue.
pub fn handle_frame(conn: &mut Connection, frame: &Vec<u8>, info: &ServerInfo) -> (r: Result<
    bool,
    Error,
>)
    ensures
        ({
            let parsed = varint_dec(frame@);
            match parsed {
                None => r == Err::<bool, Error>(Error::Protocol) && *final(conn) == *old(conn),
                Some((pid, l)) => {
                    let payload = frame@.skip(l as int);
                    match old(conn).state {
                        ConnState::Handshake => if pid == 0 {
                            match handshake_parse(payload) {
                                Some(h) => {
                                    &&& r == Ok::<bool, Error>(true)
                                    &&& final(conn).state == h.3
                                    &&& final(conn).protocol_version == h.0
                                    &&& final(conn).id == old(conn).id
                                    &&& final(conn).entity == old(conn).entity
                                    &&& final(conn).outgoing@ == old(conn).outgoing@
                                },
                                None => r == Err::<bool, Error>(Error::Protocol) && *final(conn)
                                    == *old(conn),
                            }
                        } else {
                            r == Err::<bool, Error>(Error::Protocol) && *final(conn) == *old(conn)
                        },
                        ConnState::Status => if pid == 0 {
                            &&& r is Ok <==> encode_utf8(
                                status_response_json(
                                    u32_rep_of_i32(old(conn).protocol_version),
                                    info,
                                ),
                            ).len() <= 262144
                            &&& r is Ok ==> r == Ok::<bool, Error>(true) && final(conn).outgoing@
                                == old(conn).outgoing@ + status_response_frame(
                                u32_rep_of_i32(old(conn).protocol_version),
                                info,
                            )
                            &&& r is Err ==> r == Err::<bool, Error>(Error::Protocol) && *final(conn)
                                == *old(conn)
                            &&& final(conn).state == old(conn).state
                            &&& final(conn).id == old(conn).id
                            &&& final(conn).protocol_version == old(conn).protocol_version
                            &&& final(conn).entity == old(conn).entity
                        } else if pid == 1 {
                            if payload.len() == 8 {
                                &&& r == Ok::<bool, Error>(false)
                                &&& final(conn).outgoing@ == old(conn).outgoing@ + frame_for(
                                    0x01,
                                    payload,
                                )
                                &&& final(conn).state == old(conn).state
                                &&& final(conn).id == old(conn).id
                                &&& final(conn).protocol_version == old(conn).protocol_version
                                &&& final(conn).entity == old(conn).entity
                            } else {
                                r == Err::<bool, Error>(Error::Protocol) && *final(conn) == *old(conn)
                            }
                        } else {
                            r == Err::<bool, Error>(Error::Protocol) && *final(conn) == *old(conn)
                        },
                        ConnState::Login => r == Err::<bool, Error>(Error::Protocol) && *final(conn) == *old(conn),
                        ConnState::Play => r == Ok::<bool, Error>(true) && *final(conn) == *old(conn),
                    }
                },
            }
        }),
{
    proof {
        assert(frame@.skip(0) =~= frame@);
    }
    let (pid, at) = match read_varint(frame, 0) {
        Ok(p) => p,
        Err(_) => {
            return Err(Error::Protocol);
        },
    };
    let payload = tail_bytes(frame, at);
    match conn.state {
        ConnState::Handshake => {
            if pid != 0 {
                return Err(Error::Protocol);
            }
            let (proto, _addr, _port, next) = match parse_handshake(&payload) {
                Ok(h) => h,
                Err(_) => {
                    return Err(Error::Protocol);
                },
            };
            conn.protocol_version = proto;
            conn.state = next;
            Ok(true)
        },
        ConnState::Status => {
            if pid == 0 {
                match Status::respond(conn, info) {
                    Ok(()) => Ok(true),
                    Err(e) => Err(e),
                }
            } else if pid == 1 {
                if payload.len() != 8 {
                    return Err(Error::Protocol);
                }
                let pong = match build_frame(0x01, &payload) {
                    Ok(f) => f,
                    Err(_) => {
                        proof {
                            assert(false);
                        }
                        return Err(Error::Protocol);
                    },
                };
                let mut out = pong;
                conn.outgoing.append(&mut out);
                Ok(false)
            } else {
                Err(Error::Protocol)
            }
        },
        ConnState::Login => Err(Error::Protocol),
        ConnState::Play => Ok(true),
    }
}

} // verus!
