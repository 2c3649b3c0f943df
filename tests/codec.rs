use cargosos_bitcoin::codec::{
    read_i32, read_i64, read_u32, read_u64, read_var_bytes, read_varint, write_bool, write_i32,
    write_i64, write_u32, write_u64, write_var_bytes, write_varint,
};
use cargosos_bitcoin::error::ErrorMessage;
use cargosos_bitcoin::hash::{checksum, zero_hash};
use cargosos_bitcoin::serializable::Serializable;

fn varint_bytes(v: u64) -> Vec<u8> {
    let mut out = Vec::new();
    write_varint(v, &mut out);
    out
}

#[test]
fn varint_one_byte_below_fd() {
    assert_eq!(varint_bytes(0), vec![0x00]);
    assert_eq!(varint_bytes(0xFC), vec![0xFC]);
}

#[test]
fn varint_marker_widths() {
    assert_eq!(varint_bytes(0xFD), vec![0xFD, 0xFD, 0x00]);
    assert_eq!(varint_bytes(0xFFFF), vec![0xFD, 0xFF, 0xFF]);
    assert_eq!(varint_bytes(0x1_0000), vec![0xFE, 0x00, 0x00, 0x01, 0x00]);
    assert_eq!(
        varint_bytes(0x1_0000_0000),
        vec![0xFF, 0x00, 0x00, 0x00, 0x00, 0x01, 0x00, 0x00, 0x00]
    );
}

#[test]
fn varint_round_trip() {
    for v in [0u64, 1, 0xFC, 0xFD, 0xFFFF, 0x1_0000, 0xFFFF_FFFF, 0x1_0000_0000, u64::MAX] {
        let bytes = varint_bytes(v);
        assert_eq!(read_varint(&bytes, 0), Ok((v, bytes.len())));
    }
}

#[test]
fn varint_non_canonical_is_refused() {
    let bytes = vec![0xFD, 0x10, 0x00];
    assert_eq!(read_varint(&bytes, 0), Err(ErrorMessage::ErrorInDeserialization));
}

#[test]
fn varint_short_is_refused() {
    let bytes = vec![0xFE, 0x01, 0x02];
    assert!(read_varint(&bytes, 0).is_err());
}

#[test]
fn scalars_are_little_endian() {
    let mut out = Vec::new();
    write_u32(0x0102_0304, &mut out);
    assert_eq!(out, vec![0x04, 0x03, 0x02, 0x01]);
    let mut out = Vec::new();
    write_i32(-2, &mut out);
    assert_eq!(out, vec![0xFE, 0xFF, 0xFF, 0xFF]);
    let mut out = Vec::new();
    write_u64(70015, &mut out);
    assert_eq!(out, vec![0x7F, 0x11, 0x01, 0, 0, 0, 0, 0]);
    let mut out = Vec::new();
    write_i64(-1, &mut out);
    assert_eq!(out, vec![0xFF; 8]);
    let mut out = Vec::new();
    write_bool(true, &mut out);
    write_bool(false, &mut out);
    assert_eq!(out, vec![0x01, 0x00]);
}

#[test]
fn scalars_round_trip() {
    let mut out = Vec::new();
    write_i32(-70015, &mut out);
    write_u32(0xDEAD_BEEF, &mut out);
    write_u64(0x0123_4567_89AB_CDEF, &mut out);
    write_i64(-1_700_000_000, &mut out);
    assert_eq!(read_i32(&out, 0), Ok((-70015, 4)));
    assert_eq!(read_u32(&out, 4), Ok((0xDEAD_BEEF, 8)));
    assert_eq!(read_u64(&out, 8), Ok((0x0123_4567_89AB_CDEF, 16)));
    assert_eq!(read_i64(&out, 16), Ok((-1_700_000_000, 24)));
    assert!(read_u32(&out, 21).is_err());
}

#[test]
fn var_bytes_round_trip() {
    let text = b"/cargosos:0.1/".to_vec();
    let mut out = Vec::new();
    write_var_bytes(&text, &mut out);
    assert_eq!(out[0], 14);
    assert_eq!(read_var_bytes(&out, 0), Ok((text, 15)));
}

#[test]
fn var_bytes_longer_than_input_is_refused() {
    let bytes = vec![0x05, 1, 2];
    assert!(read_var_bytes(&bytes, 0).is_err());
}

#[test]
fn checksum_of_empty_payload() {
    assert_eq!(checksum(&Vec::new()), [0x5d, 0xf6, 0xe0, 0xe2]);
}

#[test]
fn zero_hash_is_all_zero() {
    assert_eq!(zero_hash(), [0u8; 32]);
}

#[test]
fn serializable_scalars() {
    let mut out = Vec::new();
    1u32.serialize(&mut out);
    (-1i32).serialize(&mut out);
    true.serialize(&mut out);
    vec![9u8, 8].serialize(&mut out);
    assert_eq!(out, vec![1, 0, 0, 0, 0xFF, 0xFF, 0xFF, 0xFF, 1, 9, 8]);
}
