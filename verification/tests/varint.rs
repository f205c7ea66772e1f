use roughdb::varint::{append_varu64, read_varu64, varu64_len, write_varu64, write_varu64_at};

#[test]
fn u64var_encoding() {
    let mut data = [0; 18];
    assert_eq!(write_varu64(&mut data, 0), 1);
    assert_eq!(read_varu64(&data), (0, 1));
    assert_eq!(write_varu64(&mut data, 127), 1);
    assert_eq!(read_varu64(&data), (127, 1));
    assert_eq!(write_varu64(&mut data, 128), 2);
    assert_eq!(read_varu64(&data), (128, 2));
    assert_eq!(write_varu64(&mut data, u64::MAX), 10);
    assert_eq!(read_varu64(&data), (u64::MAX, 10));
}

#[test]
fn varint_bytes_are_little_endian_base_128() {
    let mut data = [0xaau8; 4];
    assert_eq!(write_varu64(&mut data, 300), 2);
    assert_eq!(data, [0xac, 0x02, 0xaa, 0xaa]);
    let mut data = [0u8; 10];
    assert_eq!(write_varu64(&mut data, u64::MAX), 10);
    assert_eq!(data, [0xff, 0xff, 0xff, 0xff, 0xff, 0xff, 0xff, 0xff, 0xff, 0x01]);
}

#[test]
fn varint_round_trips_at_the_length_boundaries() {
    let cases: [(u64, usize); 12] = [
        (0, 1),
        (1, 1),
        (127, 1),
        (128, 2),
        (16383, 2),
        (16384, 3),
        (2097151, 3),
        (2097152, 4),
        (1 << 56, 9),
        ((1 << 63) - 1, 9),
        (1 << 63, 10),
        (u64::MAX, 10),
    ];
    for (n, len) in cases {
        let mut data = [0u8; 10];
        assert_eq!(write_varu64(&mut data, n), len);
        assert_eq!(varu64_len(n), len);
        assert_eq!(read_varu64(&data), (n, len));
        assert_eq!(read_varu64(&data[..len]), (n, len));
    }
}

#[test]
fn varint_read_ignores_what_follows() {
    assert_eq!(read_varu64(&[0x05, 0xff, 0xff]), (5, 1));
    assert_eq!(read_varu64(&[0x80, 0x01, 0x80]), (128, 2));
}

#[test]
fn varint_truncated_gives_zero_zero() {
    assert_eq!(read_varu64(&[]), (0, 0));
    assert_eq!(read_varu64(&[0x80]), (0, 0));
    assert_eq!(read_varu64(&[0xff, 0xff, 0xff]), (0, 0));
}

#[test]
fn varint_longer_than_ten_bytes_gives_zero_zero() {
    let data = [0x80u8, 0x80, 0x80, 0x80, 0x80, 0x80, 0x80, 0x80, 0x80, 0x80, 0x01];
    assert_eq!(read_varu64(&data), (0, 0));
}

#[test]
fn varint_tenth_byte_keeps_its_lowest_bit_only() {
    let mut data = [0x80u8; 10];
    data[9] = 0x02;
    assert_eq!(read_varu64(&data), (0, 10));
    data[9] = 0x03;
    assert_eq!(read_varu64(&data), (1 << 63, 10));
}

#[test]
fn varint_padded_with_zero_groups_is_read() {
    assert_eq!(read_varu64(&[0x81, 0x00]), (1, 2));
}

#[test]
fn varint_written_at_an_offset_leaves_the_rest() {
    let mut data = [7u8; 6];
    assert_eq!(write_varu64_at(&mut data, 2, 128), 2);
    assert_eq!(data, [7, 7, 0x80, 0x01, 7, 7]);
}

#[test]
fn varint_appended_to_a_vector() {
    let mut out = vec![9u8];
    append_varu64(&mut out, 0);
    append_varu64(&mut out, 300);
    assert_eq!(out, vec![9, 0, 0xac, 0x02]);
}
