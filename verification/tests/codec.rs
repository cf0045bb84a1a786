use hazelnet::codec::{CodecError, PacketReader, PacketWriter};

fn round_trip_varint(v: u32) {
    let mut w = PacketWriter::new();
    w.write_u32_encoded(v);
    let bytes = w.finish();
    let mut r = PacketReader::new(bytes);
    assert_eq!(r.read_u32_encoded(), Ok(v));
    assert_eq!(r.remaining(), 0);
}

#[test]
fn varint_round_trips() {
    for v in [
        0u32,
        1,
        127,
        128,
        129,
        255,
        300,
        16383,
        16384,
        2097151,
        2097152,
        268435455,
        268435456,
        u32::MAX - 1,
        u32::MAX,
    ] {
        round_trip_varint(v);
    }
}

#[test]
fn varint_known_encodings() {
    let mut w = PacketWriter::new();
    w.write_u32_encoded(7);
    assert_eq!(w.finish(), vec![0x07]);
    let mut w = PacketWriter::new();
    w.write_u32_encoded(300);
    assert_eq!(w.finish(), vec![0xAC, 0x02]);
    let mut w = PacketWriter::new();
    w.write_u32_encoded(u32::MAX);
    assert_eq!(w.finish(), vec![0xFF, 0xFF, 0xFF, 0xFF, 0x0F]);
}

#[test]
fn varint_overflow_stops_after_five_bytes() {
    // five continuation bytes: invalid, and the sixth byte is never read
    let data = vec![0xFF, 0xFF, 0xFF, 0xFF, 0xFF, 0x01];
    let mut r = PacketReader::new(data);
    assert_eq!(r.read_u32_encoded(), Err(CodecError::VarintOverflow));
    assert_eq!(r.remaining(), 1);
}

#[test]
fn varint_eof() {
    let mut r = PacketReader::new(vec![0x80, 0x80]);
    assert_eq!(r.read_u32_encoded(), Err(CodecError::UnexpectedEof));
}

#[test]
fn integers_round_trip() {
    let mut w = PacketWriter::new();
    w.write_u8(0xAB);
    w.write_u16(0x1234);
    w.write_u16_be(0x1234);
    w.write_u32(0xDEADBEEF);
    w.write_i8(-5);
    w.write_i16(-1234);
    w.write_i32(-123456789);
    w.write_bool(true);
    w.write_bool(false);
    let mut r = PacketReader::new(w.finish());
    assert_eq!(r.read_u8(), Ok(0xAB));
    assert_eq!(r.read_u16(), Ok(0x1234));
    assert_eq!(r.read_u16_be(), Ok(0x1234));
    assert_eq!(r.read_u32(), Ok(0xDEADBEEF));
    assert_eq!(r.read_i8(), Ok(-5));
    assert_eq!(r.read_i16(), Ok(-1234));
    assert_eq!(r.read_i32(), Ok(-123456789));
    assert_eq!(r.read_bool(), Ok(true));
    assert_eq!(r.read_bool(), Ok(false));
    assert_eq!(r.remaining(), 0);
}

#[test]
fn endianness_on_the_wire() {
    let mut w = PacketWriter::new();
    w.write_u16(0x0102);
    w.write_u16_be(0x0102);
    assert_eq!(w.finish(), vec![0x02, 0x01, 0x01, 0x02]);
}

#[test]
fn bool_rejects_other_bytes() {
    let mut r = PacketReader::new(vec![2]);
    assert_eq!(r.read_bool(), Err(CodecError::InvalidDiscriminant));
}

#[test]
fn strings_round_trip() {
    let mut w = PacketWriter::new();
    w.write_string("oregano");
    w.write_string("");
    w.write_string("héllo wörld");
    let mut r = PacketReader::new(w.finish());
    assert_eq!(r.read_string(), Ok("oregano".to_string()));
    assert_eq!(r.read_string(), Ok("".to_string()));
    assert_eq!(r.read_string(), Ok("héllo wörld".to_string()));
    assert_eq!(r.remaining(), 0);
}

#[test]
fn string_rejects_bad_utf8() {
    let mut r = PacketReader::new(vec![2, 0xFF, 0xFE]);
    assert_eq!(r.read_string(), Err(CodecError::InvalidUtf8));
}

#[test]
fn messages_round_trip() {
    // write several messages, one nested, and read the exact pairs back
    let mut w = PacketWriter::new();
    w.write_message(3, &[1, 2, 3]);
    w.write_message(7, &[]);
    w.start_message(9);
    w.write_u8(0xAA);
    w.start_message(2);
    w.write_u8(0xBB);
    w.end_message();
    w.end_message();
    let bytes = w.finish();
    let mut r = PacketReader::new(bytes);
    let (tag, mut inner) = r.read_message().unwrap();
    assert_eq!(tag, 3);
    assert_eq!(inner.remaining_bytes(), vec![1, 2, 3]);
    let (tag, mut inner) = r.read_message().unwrap();
    assert_eq!(tag, 7);
    assert_eq!(inner.remaining(), 0);
    let (tag, mut inner) = r.read_message().unwrap();
    assert_eq!(tag, 9);
    assert_eq!(inner.read_u8(), Ok(0xAA));
    let (tag2, mut nested) = inner.read_message().unwrap();
    assert_eq!(tag2, 2);
    assert_eq!(nested.read_u8(), Ok(0xBB));
    assert_eq!(r.remaining(), 0);
}

#[test]
fn message_layout_is_length_tag_payload() {
    let mut w = PacketWriter::new();
    w.write_message(5, &[0xCA, 0xFE]);
    assert_eq!(w.finish(), vec![0x02, 0x00, 0x05, 0xCA, 0xFE]);
}

#[test]
fn read_message_eof() {
    let mut r = PacketReader::new(vec![0x05, 0x00, 0x01, 0xAA]);
    assert!(r.read_message().is_err());
}
