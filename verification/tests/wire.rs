use bnklaunch::platform::arena::ArrayVec;
use bnklaunch::platform::wire::{encode, parse_header, Arg, Reader, HEADER_SIZE};
use bnklaunch::wire::{MessageBuilder, MessageParser, BUILD_CAP, WIRE_STR_CAP};

/// A sink roomy enough for any request these tests build.
type Buf = ArrayVec<u8, 1024>;

fn encoded(object: u32, opcode: u16, args: &[Arg<'_>]) -> Vec<u8> {
    let mut buf: Buf = ArrayVec::new();
    encode(&mut buf, object, opcode, args).expect("encode");
    buf.as_slice().to_vec()
}

#[test]
fn header_carries_size_and_opcode() {
    let buf = encoded(5, 2, &[Arg::Uint(0xdead_beef), Arg::Int(-1)]);
    assert_eq!(buf.len(), 8 + 4 + 4);
    let (object, opcode, size) = parse_header(&buf).expect("header");
    assert_eq!(object, 5);
    assert_eq!(opcode, 2);
    assert_eq!(size, 16);
}

#[test]
fn roundtrips_a_mixed_argument_list() {
    let buf = encoded(1, 1, &[Arg::Uint(42), Arg::Str("hello"), Arg::Int(-100)]);
    let (object, opcode, size) = parse_header(&buf).expect("header");
    assert_eq!((object, opcode, size), (1, 1, buf.len()));

    let mut r = Reader::new(&buf[HEADER_SIZE..]);
    assert_eq!(r.u32().expect("uint"), 42);
    assert_eq!(r.string().expect("str"), "hello");
    assert_eq!(r.i32().expect("int"), -100);
}

#[test]
fn bind_encodes_interface_version_and_id() {
    let buf = encoded(
        2,
        0,
        &[
            Arg::Uint(3),
            Arg::Bind {
                interface: "zwlr_layer_shell_v1",
                version: 1,
                new_id: 9,
            },
        ],
    );
    let mut r = Reader::new(&buf[HEADER_SIZE..]);
    assert_eq!(r.u32().expect("name"), 3);
    assert_eq!(r.string().expect("interface"), "zwlr_layer_shell_v1");
    assert_eq!(r.u32().expect("version"), 1);
    assert_eq!(r.u32().expect("new id"), 9);
}

/// Every string is padded out to a 4-byte boundary and its length prefix counts
/// the NUL, so these all encode to the same size.
#[test]
fn strings_pad_to_a_four_byte_boundary() {
    for (s, want_len) in [("abc", 16), ("ab", 16), ("a", 16), ("hello", 20)] {
        let buf = encoded(1, 0, &[Arg::Str(s)]);
        assert_eq!(buf.len(), want_len, "encoded length of {s:?}");
        let mut r = Reader::new(&buf[HEADER_SIZE..]);
        assert_eq!(r.string().expect("str"), s);
    }
}

#[test]
fn multiple_strings_roundtrip() {
    let buf = encoded(
        1,
        0,
        &[Arg::Str("first"), Arg::Str("second"), Arg::Str("x")],
    );
    let mut r = Reader::new(&buf[HEADER_SIZE..]);
    assert_eq!(r.string().expect("first"), "first");
    assert_eq!(r.string().expect("second"), "second");
    assert_eq!(r.string().expect("x"), "x");
}

#[test]
fn reads_a_string_far_longer_than_any_fixed_buffer() {
    // The reader borrows the message, so a string carries no cap of its own. The
    // strings the compositor relays are chosen by other clients: one exotic MIME
    // type from a clipboard owner must not be able to end the session. The sink
    // here is sized for the message; only the read side is under test.
    let long = "x".repeat(4096);
    let mut buf: ArrayVec<u8, 8192> = ArrayVec::new();
    encode(&mut buf, 1, 0, &[Arg::Str(&long)]).expect("encode");
    let mut r = Reader::new(&buf.as_slice()[HEADER_SIZE..]);
    assert_eq!(r.string().expect("str"), long);
}

#[test]
fn fixed_decodes_signed_24_8() {
    // 256 (0x100) is 1.0, -256 is -1.0, 128 is 0.5.
    let mut buf = Vec::new();
    for raw in [256i32, -256, 128] {
        buf.extend_from_slice(&raw.to_le_bytes());
    }
    let mut r = Reader::new(&buf);
    for want in [1.0, -1.0, 0.5] {
        let f = r.fixed().expect("fixed");
        assert_eq!(f.raw as f64 / 256.0, want);
    }
    let mut p = MessageParser::new(&buf);
    for want in [1.0, -1.0, 0.5] {
        let f = p.get_fixed().expect("fixed");
        assert_eq!(f.raw as f64 / 256.0, want);
    }
}

#[test]
fn negative_ints_roundtrip() {
    let buf = encoded(1, 0, &[Arg::Int(i32::MIN), Arg::Int(-1)]);
    let mut r = Reader::new(&buf[HEADER_SIZE..]);
    assert_eq!(r.i32().expect("int"), i32::MIN);
    assert_eq!(r.i32().expect("int"), -1);
}

#[test]
fn object_id_and_opcode_span_their_full_range() {
    let buf = encoded(u32::MAX, u16::MAX, &[]);
    let (object, opcode, _) = parse_header(&buf).expect("header");
    assert_eq!(object, u32::MAX);
    assert_eq!(opcode, u16::MAX);
}

#[test]
fn reader_rejects_truncation() {
    let mut r = Reader::new(&[0u8, 0, 0]);
    assert!(r.u32().is_err());
    assert!(Reader::new(&[]).string().is_err());

    // A length running past the message is refused, not trusted.
    let mut data = Vec::new();
    data.extend_from_slice(&100u32.to_le_bytes());
    data.extend_from_slice(b"abc\0");
    assert_eq!(
        Reader::new(&data).string().err().unwrap().msg,
        "truncated wayland message"
    );
}

#[test]
fn reader_rejects_a_string_without_its_nul() {
    let mut data = Vec::new();
    data.extend_from_slice(&4u32.to_le_bytes());
    data.extend_from_slice(b"abcd"); // no terminator inside the length
    assert_eq!(
        Reader::new(&data).string().err().unwrap().msg,
        "wayland string is not NUL-terminated"
    );
}

#[test]
fn reader_rejects_a_string_that_is_not_text() {
    let mut data = Vec::new();
    data.extend_from_slice(&4u32.to_le_bytes());
    data.extend_from_slice(b"a\xFFb\0");
    assert_eq!(
        Reader::new(&data).string().err().unwrap().msg,
        "invalid utf-8 in wayland string"
    );
    assert_eq!(
        MessageParser::new(&data).get_string().err().unwrap().msg,
        "invalid utf-8 in string"
    );
}

#[test]
fn empty_string_reads_as_empty() {
    let data = 0u32.to_le_bytes();
    assert_eq!(Reader::new(&data).string().expect("str"), "");
}

#[test]
fn parse_header_rejects_a_short_buffer_and_an_undersized_size() {
    assert!(parse_header(&[0u8; 4]).is_err());

    // Well-formed eight bytes, but the announced size is below the header.
    let mut data = Vec::new();
    data.extend_from_slice(&1u32.to_le_bytes());
    data.extend_from_slice(&(4u32 << 16).to_le_bytes());
    assert!(parse_header(&data).is_err());
}

#[test]
fn encode_rejects_a_request_that_does_not_fit_and_keeps_the_buffer_whole() {
    let mut buf: ArrayVec<u8, 32> = ArrayVec::new();
    encode(&mut buf, 1, 0, &[Arg::Uint(7)]).expect("first request fits");
    let whole = buf.len();

    // The string overruns the sink. The partial write is rolled back, so what
    // stays buffered is exactly the requests that did fit, and the stream the
    // compositor eventually reads is still well formed.
    assert!(encode(&mut buf, 1, 0, &[Arg::Str(&"x".repeat(64))]).is_err());
    assert_eq!(buf.len(), whole);
    let (object, opcode, size) = parse_header(buf.as_slice()).expect("header");
    assert_eq!((object, opcode, size), (1, 0, whole));
}

#[test]
fn a_request_too_large_for_its_size_field_is_refused() {
    let mut buf: ArrayVec<u8, 131072> = ArrayVec::new();
    let long = "x".repeat(70_000);
    assert_eq!(
        encode(&mut buf, 1, 0, &[Arg::Str(&long)]).err().unwrap().msg,
        "wayland request too large to encode"
    );
    assert!(buf.is_empty());
}

// === Messages built and parsed an argument at a time ===

#[test]
fn test_message_roundtrip() {
    let mut builder = MessageBuilder::new(1, 1);
    builder.put_u32(42);
    builder.put_string("hello");
    builder.put_i32(-100);
    let msg = builder.finish().unwrap();
    let msg = msg.as_slice();

    let (obj_id, opcode, size) = bnklaunch::wire::parse_header(msg).unwrap();
    assert_eq!(obj_id, 1);
    assert_eq!(opcode, 1);
    assert_eq!(size, msg.len());

    let mut parser = MessageParser::new(&msg[HEADER_SIZE..]);
    assert_eq!(parser.get_u32().unwrap(), 42);
    assert_eq!(parser.get_string().unwrap().as_str(), "hello");
    assert_eq!(parser.get_i32().unwrap(), -100);
}

// === String padding tests ===

#[test]
fn string_padding_1_byte() {
    // "abc" = 3 chars + 1 null = 4 bytes, no padding needed
    let mut builder = MessageBuilder::new(1, 0);
    builder.put_string("abc");
    let msg = builder.finish().unwrap();

    // Header (8) + length (4) + "abc\0" (4) = 16
    assert_eq!(msg.len(), 16);
}

#[test]
fn string_padding_2_bytes() {
    // "ab" = 2 chars + 1 null = 3 bytes, needs 1 byte padding
    let mut builder = MessageBuilder::new(1, 0);
    builder.put_string("ab");
    let msg = builder.finish().unwrap();

    // Header (8) + length (4) + "ab\0" + 1 padding = 16
    assert_eq!(msg.len(), 16);
}

#[test]
fn string_padding_3_bytes() {
    // "a" = 1 char + 1 null = 2 bytes, needs 2 bytes padding
    let mut builder = MessageBuilder::new(1, 0);
    builder.put_string("a");
    let msg = builder.finish().unwrap();

    // Header (8) + length (4) + "a\0" + 2 padding = 16
    assert_eq!(msg.len(), 16);
}

#[test]
fn string_padding_longer() {
    // "hello" = 5 chars + 1 null = 6 bytes, needs 2 bytes padding
    let mut builder = MessageBuilder::new(1, 0);
    builder.put_string("hello");
    let msg = builder.finish().unwrap();

    // Header (8) + length (4) + "hello\0" (6) + 2 padding = 20
    assert_eq!(msg.len(), 20);

    let mut parser = MessageParser::new(&msg.as_slice()[HEADER_SIZE..]);
    assert_eq!(parser.get_string().unwrap().as_str(), "hello");
}

#[test]
fn wire_multiple_strings_roundtrip() {
    let mut builder = MessageBuilder::new(1, 0);
    builder.put_string("first");
    builder.put_string("second");
    builder.put_string("x");
    let msg = builder.finish().unwrap();

    let mut parser = MessageParser::new(&msg.as_slice()[HEADER_SIZE..]);
    assert_eq!(parser.get_string().unwrap().as_str(), "first");
    assert_eq!(parser.get_string().unwrap().as_str(), "second");
    assert_eq!(parser.get_string().unwrap().as_str(), "x");
}

// === Header parsing ===

#[test]
fn parse_header_extracts_fields() {
    let mut builder = MessageBuilder::new(42, 7);
    builder.put_u32(0);
    let msg = builder.finish().unwrap();

    let (obj_id, opcode, size) = bnklaunch::wire::parse_header(msg.as_slice()).unwrap();
    assert_eq!(obj_id, 42);
    assert_eq!(opcode, 7);
    assert_eq!(size, 12); // 8 header + 4 payload
}

#[test]
fn parse_header_too_short() {
    let data = [0u8; 4]; // Only 4 bytes, need 8
    let result = bnklaunch::wire::parse_header(&data);
    assert!(result.is_err());
}

#[test]
fn parse_header_rejects_size_below_header() {
    // Valid 8-byte buffer, but the announced size (4) is below HEADER_SIZE.
    let mut data = Vec::new();
    data.extend_from_slice(&1u32.to_le_bytes()); // object_id
    let size_opcode = 4u32 << 16; // size = 4, opcode = 0
    data.extend_from_slice(&size_opcode.to_le_bytes());
    assert!(bnklaunch::wire::parse_header(&data).is_err());
}

// === Parser error handling ===

#[test]
fn parser_u32_eof() {
    let data = [0u8; 2]; // Only 2 bytes
    let mut parser = MessageParser::new(&data);
    assert!(parser.get_u32().is_err());
    assert_eq!(
        parser.get_u32().err().unwrap().msg,
        "not enough data for u32"
    );
}

#[test]
fn parser_i32_eof() {
    let data = [0u8; 2];
    let mut parser = MessageParser::new(&data);
    assert!(parser.get_i32().is_err());
    assert_eq!(
        parser.get_i32().err().unwrap().msg,
        "not enough data for i32"
    );
}

#[test]
fn parser_string_length_exceeds_data() {
    // Length says 100 bytes but only 4 available
    let mut data = vec![];
    data.extend_from_slice(&100u32.to_le_bytes());
    data.extend_from_slice(b"abc\0");

    let mut parser = MessageParser::new(&data);
    assert!(parser.get_string().is_err());
}

#[test]
fn parser_empty_string() {
    // Length of 0 should return empty string
    let data = 0u32.to_le_bytes();
    let mut parser = MessageParser::new(&data);
    assert_eq!(parser.get_string().unwrap().as_str(), "");
}

#[test]
fn parser_strings_are_bounded_and_terminated() {
    let of = |len: u32, bytes: &[u8]| {
        let mut data = len.to_le_bytes().to_vec();
        data.extend_from_slice(bytes);
        let mut parser = MessageParser::new(&data);
        parser.get_string().map(|s| s.as_str().to_string())
    };
    assert_eq!(of(4, b"abcd").err().unwrap().msg, "string not null-terminated");
    assert_eq!(of(9, b"abc\0").err().unwrap().msg, "not enough data for string");
    // Padding cut off the end is no error.
    assert_eq!(of(3, b"ab\0"), Ok("ab".to_string()));
    let mut long = vec![b'x'; WIRE_STR_CAP];
    long.push(0);
    assert!(of(long.len() as u32, &long).is_ok());
    long.insert(0, b'x');
    assert_eq!(of(long.len() as u32, &long).err().unwrap().msg, "string too long");
}

// === Edge cases ===

#[test]
fn large_object_id() {
    let builder = MessageBuilder::new(u32::MAX, 0);
    let msg = builder.finish().unwrap();

    let (obj_id, _, _) = bnklaunch::wire::parse_header(msg.as_slice()).unwrap();
    assert_eq!(obj_id, u32::MAX);
}

#[test]
fn max_opcode() {
    let builder = MessageBuilder::new(1, u16::MAX);
    let msg = builder.finish().unwrap();

    let (_, opcode, _) = bnklaunch::wire::parse_header(msg.as_slice()).unwrap();
    assert_eq!(opcode, u16::MAX);
}

#[test]
fn finish_rejects_oversized_message() {
    // An argument that overflows the builder must error on finish rather than
    // send a truncated, corrupt message.
    let mut builder = MessageBuilder::new(1, 0);
    builder.put_string(&"x".repeat(70_000));
    assert!(builder.finish().is_err());
    // What fits behind it does not heal it, and an exact fit is fine.
    let mut builder = MessageBuilder::new(1, 0);
    builder.put_string(&"x".repeat(BUILD_CAP));
    builder.put_u32(1);
    assert_eq!(
        builder.finish().err().unwrap().msg,
        "message exceeds buffer capacity"
    );
    let mut builder = MessageBuilder::new(1, 0);
    builder.put_string(&"x".repeat(BUILD_CAP - HEADER_SIZE - 5));
    assert_eq!(builder.finish().unwrap().len(), BUILD_CAP);
}

#[test]
fn negative_i32_roundtrip() {
    let mut builder = MessageBuilder::new(1, 0);
    builder.put_i32(i32::MIN);
    builder.put_i32(-1);
    let msg = builder.finish().unwrap();

    let mut parser = MessageParser::new(&msg.as_slice()[HEADER_SIZE..]);
    assert_eq!(parser.get_i32().unwrap(), i32::MIN);
    assert_eq!(parser.get_i32().unwrap(), -1);
}

#[test]
fn the_builder_and_the_encoder_agree() {
    let mut builder = MessageBuilder::new(9, 4);
    builder.put_new_id(3);
    builder.put_object(0);
    builder.put_string("überall");
    assert_eq!(
        builder.finish().unwrap().as_slice(),
        &encoded(9, 4, &[Arg::NewId(3), Arg::Object(0), Arg::Str("überall")])[..]
    );
}
