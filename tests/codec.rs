use voxelproxy::codec::{
    decode_frame, encode_frame, length_prefix, read_be, read_string, read_varint, wire_bytes,
    write_be, write_string, write_varint, LengthPrefix,
};

fn varint(v: u32) -> Vec<u8> {
    let mut out = Vec::new();
    write_varint(&mut out, v);
    out
}

#[test]
fn varint_encodes_known_values() {
    assert_eq!(varint(0), vec![0x00]);
    assert_eq!(varint(1), vec![0x01]);
    assert_eq!(varint(127), vec![0x7f]);
    assert_eq!(varint(128), vec![0x80, 0x01]);
    assert_eq!(varint(300), vec![0xac, 0x02]);
    assert_eq!(varint(754), vec![0xf2, 0x05]);
    assert_eq!(varint(25565), vec![0xdd, 0xc7, 0x01]);
    assert_eq!(varint(2147483647), vec![0xff, 0xff, 0xff, 0xff, 0x07]);
    assert_eq!(varint(u32::MAX), vec![0xff, 0xff, 0xff, 0xff, 0x0f]);
}

#[test]
fn varint_reads_back_with_its_length() {
    for v in [0u32, 1, 127, 128, 255, 300, 754, 25565, 2097151, 2147483647, u32::MAX] {
        let mut bytes = varint(v);
        let n = bytes.len();
        bytes.extend_from_slice(&[9, 9, 9]);
        assert_eq!(read_varint(&bytes, 0), Some((v, n)));
    }
    assert_eq!(read_varint(&[5, 0xac, 0x02], 1), Some((300, 2)));
}

#[test]
fn varint_rejects_long_or_truncated_input() {
    assert_eq!(read_varint(&[0x80, 0x80, 0x80, 0x80, 0x80, 0x01], 0), None);
    assert_eq!(read_varint(&[0xff, 0xff, 0xff, 0xff, 0x1f], 0), None);
    assert_eq!(read_varint(&[0x80, 0x80], 0), None);
    assert_eq!(read_varint(&[], 0), None);
}

#[test]
fn big_endian_fields_round_trip() {
    let mut out = Vec::new();
    write_be(&mut out, 10f64.to_bits(), 8);
    assert_eq!(out, 10f64.to_be_bytes().to_vec());
    assert_eq!(read_be(&out, 0, 8), 10f64.to_bits());
    let mut short = Vec::new();
    write_be(&mut short, 0x1234, 2);
    assert_eq!(short, vec![0x12, 0x34]);
    assert_eq!(read_be(&[0xff, 0xff, 0x85], 1, 2), 0xff85);
}

#[test]
fn strings_carry_their_utf8_length() {
    let mut out = Vec::new();
    write_string(&mut out, "Привет");
    assert_eq!(out[0], 12);
    assert_eq!(&out[1..], "Привет".as_bytes());
    let (s, n) = read_string(&out, 0).unwrap();
    assert_eq!(s, "Привет");
    assert_eq!(n, 13);
    assert!(read_string(&[2, 0xff, 0xfe], 0).is_none());
    assert!(read_string(&[5, b'a'], 0).is_none());
}

#[test]
fn uncompressed_frame_is_id_then_data() {
    let frame = encode_frame(0x12, &[1, 2, 3], None);
    assert_eq!(frame, vec![0x12, 1, 2, 3]);
    let p = decode_frame(&frame, None).unwrap();
    assert_eq!(p.id, 0x12);
    assert_eq!(p.data, vec![1, 2, 3]);
    assert!(decode_frame(&[], None).is_none());
}

#[test]
fn frame_below_threshold_is_marked_uncompressed() {
    let frame = encode_frame(0x07, &[0, 0xff, 0x85, 1], Some(256));
    assert_eq!(frame, vec![0x00, 0x07, 0, 0xff, 0x85, 1]);
    let p = decode_frame(&frame, Some(256)).unwrap();
    assert_eq!(p.id, 0x07);
    assert_eq!(p.data, vec![0, 0xff, 0x85, 1]);
}

#[test]
fn frame_at_threshold_is_compressed_and_reads_back() {
    let data: Vec<u8> = (0..300u32).map(|i| (i % 7) as u8).collect();
    let frame = encode_frame(0x22, &data, Some(64));
    assert_eq!(read_varint(&frame, 0), Some((301, 2)));
    assert_ne!(&frame[2..], &[&[0x22u8][..], &data[..]].concat()[..]);
    assert!(frame.len() < 301);
    let p = decode_frame(&frame, Some(64)).unwrap();
    assert_eq!(p.id, 0x22);
    assert_eq!(p.data, data);
}

#[test]
fn compressed_frame_with_wrong_length_is_rejected() {
    let data = vec![7u8; 100];
    let mut frame = encode_frame(0x22, &data, Some(10));
    frame[0] = 50;
    assert!(decode_frame(&frame, Some(10)).is_none());
    assert!(decode_frame(&[0x05, 1, 2, 3], Some(10)).is_none());
}

#[test]
fn wire_bytes_prefix_the_length() {
    assert_eq!(wire_bytes(&[0x12, 1, 2]), vec![3, 0x12, 1, 2]);
    let long = vec![0u8; 200];
    let wire = wire_bytes(&long);
    assert_eq!(&wire[..2], &[0xc8, 0x01]);
    assert_eq!(wire.len(), 202);
}

#[test]
fn length_prefix_states() {
    assert_eq!(length_prefix(&[]), LengthPrefix::Incomplete);
    assert_eq!(length_prefix(&[0x80]), LengthPrefix::Incomplete);
    assert_eq!(length_prefix(&[0xc8, 0x01]), LengthPrefix::Complete(200));
    assert_eq!(length_prefix(&[0x05]), LengthPrefix::Complete(5));
    assert_eq!(length_prefix(&[0x80, 0x80, 0x80, 0x80, 0x80]), LengthPrefix::Invalid);
}
