use ferrumc::codec::read_u16_be;
use ferrumc::codec::read_varint;
use ferrumc::codec::write_varint;
use ferrumc::error::Error;

fn round_trip(n: i32) {
    let bytes = write_varint(n);
    let len = bytes.len();
    assert_eq!(read_varint(&bytes, 0), Ok((n, len)));
}

#[test]
fn varint_round_trips() {
    for n in [
        0,
        1,
        2,
        127,
        128,
        255,
        300,
        25565,
        2097151,
        2147483647,
        -1,
        -2147483648,
    ] {
        round_trip(n);
    }
}

#[test]
fn varint_known_encodings() {
    assert_eq!(write_varint(0), vec![0x00]);
    assert_eq!(write_varint(1), vec![0x01]);
    assert_eq!(write_varint(127), vec![0x7F]);
    assert_eq!(write_varint(128), vec![0x80, 0x01]);
    assert_eq!(write_varint(300), vec![0xAC, 0x02]);
    assert_eq!(write_varint(756), vec![0xF4, 0x05]);
    assert_eq!(
        write_varint(-1),
        vec![0xFF, 0xFF, 0xFF, 0xFF, 0x0F]
    );
    assert_eq!(
        write_varint(-2147483648),
        vec![0x80, 0x80, 0x80, 0x80, 0x08]
    );
}

#[test]
fn varint_overlong_rejected() {
    let six = vec![0x80u8, 0x80, 0x80, 0x80, 0x80, 0x01];
    assert_eq!(read_varint(&six, 0), Err(Error::Protocol));
}

#[test]
fn varint_non_canonical_rejected() {
    // 0 written in two groups instead of one.
    let padded = vec![0x80u8, 0x00];
    assert_eq!(read_varint(&padded, 0), Err(Error::Protocol));
    // 1 written in two groups instead of one.
    let padded = vec![0x81u8, 0x00];
    assert_eq!(read_varint(&padded, 0), Err(Error::Protocol));
}

#[test]
fn varint_truncated_rejected() {
    let cut = vec![0x80u8];
    assert_eq!(read_varint(&cut, 0), Err(Error::Protocol));
    let empty: Vec<u8> = Vec::new();
    assert_eq!(read_varint(&empty, 0), Err(Error::Protocol));
}

#[test]
fn varint_reads_at_offset() {
    let buf = vec![0xFFu8, 0xAC, 0x02, 0x07];
    assert_eq!(read_varint(&buf, 1), Ok((300, 3)));
    assert_eq!(read_varint(&buf, 3), Ok((7, 4)));
}

#[test]
fn u16_big_endian() {
    let buf = vec![0x63u8, 0xDD];
    assert_eq!(read_u16_be(&buf, 0), Ok((25565, 2)));
    assert_eq!(read_u16_be(&buf, 1), Err(Error::Protocol));
}
