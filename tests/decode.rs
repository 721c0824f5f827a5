use repugnant_pickle::ops::{p_op, PickleOp};
use repugnant_pickle::parsers::{parse_op, parse_ops, DecodeError};

fn zeros(tag: u8, n: usize) -> Vec<u8> {
    let mut b = vec![tag];
    b.extend(std::iter::repeat(0u8).take(n));
    b
}

#[test]
fn every_opcode_minimal_encoding_round_trips() {
    let cases: Vec<(Vec<u8>, PickleOp)> = vec![
        (vec![p_op::MARK], PickleOp::MARK),
        (vec![p_op::STOP], PickleOp::STOP),
        (vec![p_op::POP], PickleOp::POP),
        (vec![p_op::POP_MARK], PickleOp::POP_MARK),
        (vec![p_op::DUP], PickleOp::DUP),
        (vec![p_op::FLOAT, b'\n'], PickleOp::FLOAT("")),
        (vec![p_op::INT, b'\n'], PickleOp::INT("")),
        (zeros(p_op::BININT, 4), PickleOp::BININT(0)),
        (zeros(p_op::BININT1, 1), PickleOp::BININT1(0)),
        (vec![p_op::LONG, b'\n'], PickleOp::LONG("")),
        (zeros(p_op::BININT2, 2), PickleOp::BININT2(0)),
        (vec![p_op::NONE], PickleOp::NONE),
        (vec![p_op::PERSID, b'\n'], PickleOp::PERSID("")),
        (vec![p_op::BINPERSID], PickleOp::BINPERSID),
        (vec![p_op::REDUCE], PickleOp::REDUCE),
        (vec![p_op::STRING, b'\n'], PickleOp::STRING("")),
        (zeros(p_op::BINSTRING, 4), PickleOp::BINSTRING(b"")),
        (zeros(p_op::SHORT_BINSTRING, 1), PickleOp::SHORT_BINSTRING(b"")),
        (vec![p_op::UNICODE, b'\n'], PickleOp::UNICODE("")),
        (zeros(p_op::BINUNICODE, 4), PickleOp::BINUNICODE("")),
        (vec![p_op::APPEND], PickleOp::APPEND),
        (vec![p_op::BUILD], PickleOp::BUILD),
        (vec![p_op::GLOBAL, b'\n', b'\n'], PickleOp::GLOBAL("", "")),
        (vec![p_op::DICT], PickleOp::DICT),
        (vec![p_op::EMPTY_DICT], PickleOp::EMPTY_DICT),
        (vec![p_op::APPENDS], PickleOp::APPENDS),
        (vec![p_op::GET, b'\n'], PickleOp::GET("")),
        (zeros(p_op::BINGET, 1), PickleOp::BINGET(0)),
        (vec![p_op::INST, b'\n', b'\n'], PickleOp::INST("", "")),
        (zeros(p_op::LONG_BINGET, 4), PickleOp::LONG_BINGET(0)),
        (vec![p_op::LIST], PickleOp::LIST),
        (vec![p_op::EMPTY_LIST], PickleOp::EMPTY_LIST),
        (vec![p_op::OBJ], PickleOp::OBJ),
        (vec![p_op::PUT, b'\n'], PickleOp::PUT("")),
        (zeros(p_op::BINPUT, 1), PickleOp::BINPUT(0)),
        (zeros(p_op::LONG_BINPUT, 4), PickleOp::LONG_BINPUT(0)),
        (vec![p_op::SETITEM], PickleOp::SETITEM),
        (vec![p_op::TUPLE], PickleOp::TUPLE),
        (vec![p_op::EMPTY_TUPLE], PickleOp::EMPTY_TUPLE),
        (vec![p_op::SETITEMS], PickleOp::SETITEMS),
        (zeros(p_op::BINFLOAT, 8), PickleOp::BINFLOAT(0)),
        (zeros(p_op::PROTO, 1), PickleOp::PROTO(0)),
        (vec![p_op::NEWOBJ], PickleOp::NEWOBJ),
        (zeros(p_op::EXT1, 1), PickleOp::EXT1(0)),
        (zeros(p_op::EXT2, 2), PickleOp::EXT2(0)),
        (zeros(p_op::EXT4, 4), PickleOp::EXT4(0)),
        (vec![p_op::TUPLE1], PickleOp::TUPLE1),
        (vec![p_op::TUPLE2], PickleOp::TUPLE2),
        (vec![p_op::TUPLE3], PickleOp::TUPLE3),
        (vec![p_op::NEWTRUE], PickleOp::NEWTRUE),
        (vec![p_op::NEWFALSE], PickleOp::NEWFALSE),
        (zeros(p_op::LONG1, 1), PickleOp::LONG1(b"")),
        (zeros(p_op::LONG4, 4), PickleOp::LONG4(b"")),
        (zeros(p_op::BINBYTES, 4), PickleOp::BINBYTES(b"")),
        (zeros(p_op::SHORT_BINBYTES, 1), PickleOp::SHORT_BINBYTES(b"")),
        (zeros(p_op::SHORT_BINUNICODE, 1), PickleOp::SHORT_BINUNICODE("")),
        (zeros(p_op::BINUNICODE8, 8), PickleOp::BINUNICODE8("")),
        (zeros(p_op::BINBYTES8, 8), PickleOp::BINBYTES8(b"")),
        (vec![p_op::EMPTY_SET], PickleOp::EMPTY_SET),
        (vec![p_op::ADDITEMS], PickleOp::ADDITEMS),
        (vec![p_op::FROZENSET], PickleOp::FROZENSET),
        (vec![p_op::NEWOBJ_EX], PickleOp::NEWOBJ_EX),
        (vec![p_op::STACK_GLOBAL], PickleOp::STACK_GLOBAL),
        (vec![p_op::MEMOIZE], PickleOp::MEMOIZE),
        (zeros(p_op::FRAME, 8), PickleOp::FRAME(0)),
        (zeros(p_op::BYTEARRAY8, 8), PickleOp::BYTEARRAY8(b"")),
        (vec![p_op::NEXT_BUFFER], PickleOp::NEXT_BUFFER),
        (vec![p_op::READONLY_BUFFER], PickleOp::READONLY_BUFFER),
    ];
    assert_eq!(cases.len(), 68);
    for (bytes, expected) in cases.iter() {
        let (op, end) = parse_op(bytes, 0).unwrap();
        assert_eq!(&op, expected);
        assert_eq!(end, bytes.len());
    }
}

#[test]
fn fixed_width_arguments_are_little_endian() {
    let b = [p_op::BININT, 0xfe, 0xff, 0xff, 0xff];
    assert_eq!(parse_op(&b, 0).unwrap(), (PickleOp::BININT(-2), 5));
    let b = [p_op::BININT2, 0x34, 0x12];
    assert_eq!(parse_op(&b, 0).unwrap(), (PickleOp::BININT2(0x1234), 3));
    let b = [p_op::EXT2, 0x00, 0x80];
    assert_eq!(parse_op(&b, 0).unwrap(), (PickleOp::EXT2(-32768), 3));
    let b = [p_op::LONG_BINGET, 0x78, 0x56, 0x34, 0x12];
    assert_eq!(parse_op(&b, 0).unwrap(), (PickleOp::LONG_BINGET(0x12345678), 5));
    let b = [p_op::FRAME, 1, 2, 3, 4, 5, 6, 7, 8];
    assert_eq!(parse_op(&b, 0).unwrap(), (PickleOp::FRAME(0x0807060504030201), 9));
    let bits = 1.5f64.to_bits().to_le_bytes();
    let mut b = vec![p_op::BINFLOAT];
    b.extend_from_slice(&bits);
    assert_eq!(parse_op(&b, 0).unwrap(), (PickleOp::BINFLOAT(1.5f64.to_bits()), 9));
    let b = [p_op::BININT1, 200];
    assert_eq!(parse_op(&b, 0).unwrap(), (PickleOp::BININT1(200), 2));
}

#[test]
fn counted_and_line_arguments() {
    let b = b"\x8c\x05hello";
    assert_eq!(parse_op(b, 0).unwrap(), (PickleOp::SHORT_BINUNICODE("hello"), 7));
    let b = b"X\x02\x00\x00\x00hi";
    assert_eq!(parse_op(b, 0).unwrap(), (PickleOp::BINUNICODE("hi"), 7));
    let b = b"C\x03abc";
    assert_eq!(parse_op(b, 0).unwrap(), (PickleOp::SHORT_BINBYTES(b"abc"), 5));
    let b = b"\x8a\x02\x01\x02";
    assert_eq!(parse_op(b, 0).unwrap(), (PickleOp::LONG1(&[1, 2]), 4));
    let b = b"I42\nrest";
    assert_eq!(parse_op(b, 0).unwrap(), (PickleOp::INT("42"), 4));
    let b = b"ctorch\nFloatStorage\n";
    assert_eq!(parse_op(b, 0).unwrap(), (PickleOp::GLOBAL("torch", "FloatStorage"), 20));
}

#[test]
fn decode_at_an_offset() {
    let b = b"}K\x07.";
    assert_eq!(parse_op(b, 1).unwrap(), (PickleOp::BININT1(7), 3));
    assert_eq!(parse_op(b, 4), Err(DecodeError::Truncated { pos: 4 }));
}

#[test]
fn truncated_arguments_fail_at_their_instruction() {
    let full: Vec<Vec<u8>> = vec![
        vec![p_op::BININT, 1, 2, 3, 4],
        vec![p_op::BININT1, 1],
        vec![p_op::BININT2, 1, 2],
        vec![p_op::LONG_BINGET, 1, 2, 3, 4],
        vec![p_op::FRAME, 1, 2, 3, 4, 5, 6, 7, 8],
        vec![p_op::BINFLOAT, 1, 2, 3, 4, 5, 6, 7, 8],
        vec![p_op::EXT2, 1, 2],
        vec![p_op::SHORT_BINBYTES, 3, b'a', b'b', b'c'],
        vec![p_op::BINBYTES, 2, 0, 0, 0, b'a', b'b'],
        vec![p_op::BINBYTES8, 1, 0, 0, 0, 0, 0, 0, 0, b'a'],
        vec![p_op::SHORT_BINUNICODE, 2, b'h', b'i'],
        vec![p_op::BINUNICODE, 2, 0, 0, 0, b'h', b'i'],
        vec![p_op::LONG4, 1, 0, 0, 0, 9],
    ];
    for enc in full.iter() {
        for k in 1..enc.len() {
            let mut b = vec![p_op::EMPTY_LIST];
            b.extend_from_slice(&enc[..k]);
            assert_eq!(parse_op(&b, 1), Err(DecodeError::Truncated { pos: 1 }));
            assert_eq!(parse_ops(&b), Err(DecodeError::Truncated { pos: 1 }));
        }
        assert!(parse_op(enc, 0).is_ok());
    }
}

#[test]
fn unknown_opcode_is_an_error_with_its_offset() {
    let b = [p_op::EMPTY_DICT, 0xff, p_op::STOP];
    assert_eq!(parse_ops(&b), Err(DecodeError::BadOpcode { pos: 1, tag: 0xff }));
}

#[test]
fn invalid_text_is_an_error() {
    let b = b"\x8c\x01\xff";
    assert_eq!(parse_ops(b), Err(DecodeError::BadUtf8 { pos: 0 }));
    let b = b"}S\xff\n";
    assert_eq!(parse_ops(b), Err(DecodeError::BadUtf8 { pos: 1 }));
}

#[test]
fn missing_line_feed_is_truncation() {
    assert_eq!(parse_ops(b"I12"), Err(DecodeError::Truncated { pos: 0 }));
    assert_eq!(parse_ops(b"cmod\nname"), Err(DecodeError::Truncated { pos: 0 }));
}

#[test]
fn empty_buffer_is_an_error() {
    assert_eq!(parse_ops(b""), Err(DecodeError::Truncated { pos: 0 }));
}

#[test]
fn decode_all_reads_to_the_end() {
    let ops = parse_ops(b"\x80\x02}q\x00.").unwrap();
    assert_eq!(
        ops,
        vec![PickleOp::PROTO(2), PickleOp::EMPTY_DICT, PickleOp::BINPUT(0), PickleOp::STOP]
    );
}
